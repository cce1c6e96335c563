# hatter

Hatter is a small, whitespace sensitive templating language with HTML
support built right in. A template is scanned into tokens, parsed into
statements, and evaluated in an environment that prints static HTML.

The library is written in Verus and verified:

- `src/lexer.rs`, `src/parser.rs`, `src/compile.rs`: source text to tokens
  to statements. Every token carries the source text where it starts,
  keywords are spelled out, and no prefix of the tokens closes more
  indents than it opens; scanning fails only on a string or a tab, and
  an unclosed opening string fails. Statements come in source order,
  each of the shape its first token calls for, with operators grouped
  by how tightly they bind; a plain word and a run of digits compile to
  that word and that number, and a line `a op b op c` of operands
  (numbers, words, `true`, `false`) and operators scans to its five
  parts and compiles to one call nested by how tightly they bind; a
  range `a..b` of digits scans to its three parts, two or six equal quotes
  to an empty string, and a comment line between two numbers makes no
  token, while indentation that mixes tabs and spaces fails to scan.
  Lines of one lone operand each (a lowercase word, `true`, `false` or
  a run of digits), however many and with or without a final newline,
  scan to that operand and a `;` per line and compile to one statement
  per line. An assignment `w := d` (or `w = d`) and a tag line
  `<t> w` compile to that assignment and that tag, a source that opens
  with a closing tag `</` fails to compile, and the statements of a list
  of lone words and numbers are those atoms, one for each.
- `src/value.rs`, `src/number.rs`, `src/omap.rs`: values, the fixed-point
  numbers they compute with, and the insertion-ordered maps.
- `src/builtin.rs`: the builtin functions, each with an exact contract.
- `src/html.rs`: how an evaluated tag is written out.
- `src/env.rs`: scopes, variables and the evaluator; its laws cover
  scoping, assignment, output, the value of pure expressions (literals,
  variables, lists, maps, builtin calls, `&&`/`||` and tags, with loops
  in their bodies), what `for`, `if`, `print` and `puts` print, what a
  call of a Hatter function gives (the value of its body's last
  statement, its parameters bound to the arguments), when a `while` over
  pure code ends, and the page that rendering such statements gives; a
  plain word renders as itself, lines of lone operands render, in order,
  each number as its number and each word (naming no variable) or
  boolean as its text, a tag line `<t> w` that renders gives
  the tag around `w` (or around the value of the variable `w`), such an infix
  line evaluates to the value of its nested call, `&&` and `||` never
  evaluate a second operand that the first one decides (also when the
  first operand prints), an `if` follows the value of its first test, an
  assignment evaluates its right side first and a refused one changes
  nothing, a Hatter function fails on arguments that do not match its
  parameters, and `:=` refuses only a name bound in the innermost scope.
- `src/template.rs`: a template compiles its source once, with every
  promise that compiling makes.

`app/` holds the `hatter` command (render a file, print its tokens or
syntax tree, or run a REPL); `tests/` holds the tests.
