# tsf

A verified library for TSF, a line-based text format for ordered trees:

```
0 html
1 head
2 title "My page"
1 body
2 div class="container" n=42
```

Each line is `depth name [key=value ...] ["content"]` and ends with a newline;
the first line is the root at depth 0, and each later line is at depth 1 up to
one level deeper than the line before it. Within quotes, `\"`, `\\`, `\n` and
`\t` stand for a quote, a backslash, a newline and a tab.

## Layout

- `src/text.rs`: decimal numerals, the integer and float literal grammars,
  string building.
- `src/ast/syntax_tree_types.rs`: values, attributes, nodes, documents, their
  mathematical model, and the canonical serializer (`to_string`).
- `src/lexer/lexer_types.rs`: tokens and the lexer, specified as a state
  machine over the input bytes; its view is the stream of tokens still to come.
  `ByteLexer` takes one byte at a time, so an input can be lexed as it
  arrives; `Lexer` runs on it.
- `src/errors/error_types.rs`: parse errors.
- `src/parser/parser_types.rs`: the parser, specified over token streams.
  `TreeBuilder` takes the lines of a document one at a time; `Parser` runs on
  it.
- `src/parser/document_rules.rs`: what holds of every parse (the depth
  rules of the format, empty input, reading to the end, tree depth), proved of
  the parser's specification.
- `src/roundtrip.rs` and `src/roundtrip/`: the proof that the canonical text of
  a well-formed tree parses back as that tree, and so that each such tree has
  exactly one canonical text; and `depth_rule.rs`, the depth rule over whole
  documents (the tree built from lines that obey it, the error at the first
  line that breaks it, and that the serializer's lines obey it).
- `app/main.rs`: the command-line program (stdin to stdout).
- `tests/`: tests on concrete inputs.

A float is held as the text of its literal; the program prints it in the
shortest form of its `f64`.
