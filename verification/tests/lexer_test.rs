use hatter::scan;

#[test]
fn empty_string_test() {
    let lits = vec![
        r#""""#,
        r#"''"#,
        r#"``"#,
        r#""""""""#,
        r#"''''''"#,
        r#"``````"#,
    ];
    for lit in lits {
        assert_eq!("", scan(lit).unwrap()[0].literal());
    }
}
