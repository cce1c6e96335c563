use hatter::{OMap, Symbol, Value};

#[test]
fn test_insert() {
    let mut map = OMap::new();
    map.insert(Symbol::from("name"), Value::String("Cyndi L.".to_string()));
    assert_eq!("Cyndi L.", map.get("name").unwrap().to_str());
    map.remove("name");
    assert!(map.get("name").is_none());
}

#[test]
fn test_iter() {
    let mut map = OMap::new();
    map.insert(Symbol::from("name"), Value::String("Bilbo Baggins".to_string()));
    map.insert(Symbol::from("age"), Value::String("111".to_string()));
    let mut out = String::new();
    for (k, v) in map.iter() {
        out.push_str(&format!("{}: {}\n", k.to_str(), v.to_string()));
    }
    assert_eq!("name: Bilbo Baggins\nage: 111\n", out);
}
