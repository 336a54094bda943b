use rustache::error::{Error, ErrorKind};
use rustache::ron::{parse, parse_bytes, serialize, Value};

fn text(s: &str) -> Value {
    Value::Text(s.to_string())
}

#[test]
fn parse_text() {
    assert_eq!(
        parse("text".to_string()).unwrap(),
        Value::Text("text".to_string())
    );
}

#[test]
fn parse_array() {
    assert_eq!(parse("[]".to_string()).unwrap(), Value::Array(vec![]));
}

#[test]
fn parse_escaped_id_clise() {
    assert_eq!(
        parse(r"https\://test.com".to_string()).unwrap(),
        Value::Text("https://test.com".to_string())
    );
}

#[test]
fn parse_object() {
    assert_eq!(parse("{}".to_string()).unwrap(), Value::Object(Vec::new()));
}

#[test]
fn parse_nested() {
    let string = "
{
    text: Name

    array: [
        ArrayText
    ]

    object: {
        field: ObjectText
    }
}
"
    .to_string();

    let expected = Value::Object(Vec::from([
        ("text".to_string(), Value::Text("Name".to_string())),
        (
            "array".to_string(),
            Value::Array(vec![Value::Text("ArrayText".to_string())]),
        ),
        (
            "object".to_string(),
            Value::Object(Vec::from([(
                "field".to_string(),
                Value::Text("ObjectText".to_string()),
            )])),
        ),
    ]));

    assert_eq!(parse(string).unwrap(), expected);
}

#[test]
fn escaped_colon_in_text() {
    assert_eq!(parse(r"a\:b".to_string()).unwrap(), text("a:b"));
}

#[test]
fn escaped_colon_in_key() {
    let expected = Value::Object(vec![("a:b".to_string(), text("c"))]);
    assert_eq!(parse(r"{ a\:b: c }".to_string()).unwrap(), expected);
}

#[test]
fn later_key_wins() {
    let expected = Value::Object(vec![("k".to_string(), text("B"))]);
    assert_eq!(parse("{ k: A k: B }".to_string()).unwrap(), expected);
}

#[test]
fn objects_compare_without_order() {
    let a = parse("{ x: 1 y: [] }".to_string()).unwrap();
    let b = parse("{ y: [] x: 0 x: 1 }".to_string()).unwrap();
    assert_eq!(a, b);
    assert_eq!(a.clone(), b);
    assert_ne!(a, Value::Object(vec![]));
    assert_ne!(a, parse("{ x: 1 }".to_string()).unwrap());
    assert_ne!(a, parse("{ x: 1 y: [] z: 2 }".to_string()).unwrap());
}

#[test]
fn arrays_compare_in_order() {
    let a = parse("[1 2 3]".to_string()).unwrap();
    assert_eq!(a, Value::Array(vec![text("1"), text("2"), text("3")]));
    assert_ne!(a, Value::Array(vec![text("3"), text("2"), text("1")]));
    assert_ne!(a, Value::Array(vec![text("1"), text("2")]));
}

#[test]
fn compact_notation() {
    let expected = Value::Array(vec![
        Value::Object(vec![(
            "n".to_string(),
            Value::Object(vec![("v".to_string(), text("10"))]),
        )]),
        Value::Object(vec![(
            "n".to_string(),
            Value::Object(vec![("v".to_string(), text("5"))]),
        )]),
    ]);
    assert_eq!(parse("[{n:{v:10}} {n:{v:5}}]".to_string()).unwrap(), expected);
}

#[test]
fn tokens_after_the_first_value_are_ignored() {
    assert_eq!(parse("one two".to_string()).unwrap(), text("one"));
    assert_eq!(parse("[] }".to_string()).unwrap(), Value::Array(vec![]));
}

#[test]
fn empty_document_is_a_syntax_error() {
    assert_eq!(
        parse("  \n".to_string()),
        Err(Error { kind: ErrorKind::Syntax, position: 3 })
    );
}

#[test]
fn unclosed_object_is_a_syntax_error() {
    assert_eq!(
        parse("{ a: b".to_string()),
        Err(Error { kind: ErrorKind::Syntax, position: 6 })
    );
}

#[test]
fn unclosed_array_is_a_syntax_error() {
    assert_eq!(
        parse("[ a".to_string()),
        Err(Error { kind: ErrorKind::Syntax, position: 3 })
    );
}

#[test]
fn text_where_a_key_is_expected_is_a_syntax_error() {
    assert_eq!(
        parse("{ a }".to_string()),
        Err(Error { kind: ErrorKind::Syntax, position: 2 })
    );
}

#[test]
fn key_where_a_value_is_expected_is_a_syntax_error() {
    assert_eq!(
        parse("[ a: b ]".to_string()),
        Err(Error { kind: ErrorKind::Syntax, position: 2 })
    );
    assert_eq!(
        parse("}".to_string()),
        Err(Error { kind: ErrorKind::Syntax, position: 0 })
    );
}

#[test]
fn colon_without_a_key_is_a_lex_error() {
    assert_eq!(
        parse("{ a: : b }".to_string()),
        Err(Error { kind: ErrorKind::Lex, position: 5 })
    );
}

#[test]
fn bytes_that_are_no_utf8_are_a_lex_error() {
    assert_eq!(
        parse_bytes(&[b'[', b'a', 0xff, b']']),
        Err(Error { kind: ErrorKind::Lex, position: 1 })
    );
}

fn written(value: &Value) -> String {
    String::from_utf8(serialize(value)).unwrap()
}

#[test]
fn values_are_written_in_one_form() {
    assert_eq!(written(&text("word")), "word");
    assert_eq!(written(&text("a:b")), r"a\:b");
    assert_eq!(written(&Value::Array(vec![])), "[]");
    assert_eq!(written(&Value::Object(vec![])), "{}");
    assert_eq!(
        written(&Value::Array(vec![text("1"), Value::Array(vec![text("2")])])),
        "[1 [2 ] ]"
    );
    assert_eq!(
        written(&parse("{ k: A  j: { x: [] }  k: B }".to_string()).unwrap()),
        "{j:{x:[] } k:B }"
    );
}

#[test]
fn written_document_reads_back() {
    let fixture = "
{
    title: Report
    tags: [ a b c ]
    author: { name: N\u{e9}e mail: n@example.org }
    empty: []
    none: {}
    rows: [ { n: 1 } { n: 2 } [ x [ y ] ] ]
    title: Final
}
";
    let first = parse(fixture.to_string()).unwrap();
    let document = written(&first);
    let second = parse(document.clone()).unwrap();
    assert_eq!(second, first);
    assert_eq!(written(&second), document);
}

#[test]
fn written_document_with_escapes_reads_back() {
    let first = parse(r"{ url: https\://test.com a\:b: c }".to_string()).unwrap();
    assert_eq!(
        first,
        Value::Object(vec![
            ("url".to_string(), text("https://test.com")),
            ("a:b".to_string(), text("c")),
        ])
    );
    assert_eq!(parse(written(&first)).unwrap(), first);
}

#[test]
fn text_ends_at_whitespace() {
    assert_eq!(
        parse("[one two\tthree\nfour]".to_string()).unwrap(),
        Value::Array(vec![text("one"), text("two"), text("three"), text("four")])
    );
    assert_eq!(
        parse("{ name: Test name }".to_string()),
        Err(Error { kind: ErrorKind::Syntax, position: 13 })
    );
}

#[test]
fn text_ends_at_a_bracket() {
    assert_eq!(
        parse("[a[b]c{d:e}f]".to_string()).unwrap(),
        Value::Array(vec![
            text("a"),
            Value::Array(vec![text("b")]),
            text("c"),
            Value::Object(vec![("d".to_string(), text("e"))]),
            text("f"),
        ])
    );
}

#[test]
fn error_kinds_have_names() {
    let kinds = [
        ErrorKind::Lex,
        ErrorKind::Syntax,
        ErrorKind::UndefinedReference,
        ErrorKind::ShapeMismatch,
        ErrorKind::Pipe,
        ErrorKind::NumericParse,
    ];
    let names: Vec<&str> = kinds.iter().map(|kind| kind.name()).collect();
    assert_eq!(
        names,
        [
            "lex error",
            "syntax error",
            "undefined reference",
            "shape mismatch",
            "pipe error",
            "numeric parse error",
        ]
    );
}

#[test]
fn backslash_that_escapes_nothing_is_kept() {
    let first = parse(r"{ path: C\dir\ list: [a\b c\ ] }".to_string()).unwrap();
    assert_eq!(
        first,
        Value::Object(vec![
            ("path".to_string(), text(r"C\dir\")),
            (
                "list".to_string(),
                Value::Array(vec![text(r"a\b"), text(r"c\")])
            ),
        ])
    );
    assert_eq!(written(&first), r"{path:C\dir\ list:[a\b c\ ] }");
    assert_eq!(parse(written(&first)).unwrap(), first);
}
