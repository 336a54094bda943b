use rustache::error::{Error, ErrorKind};
use rustache::ron;
use rustache::rustache::{render, render_bytes, Asset, Parser, MAX_DEPTH};

fn rendered(template: &str, variables: &str) -> Result<String, Error> {
    render(template, variables, Vec::new())
}

fn failure(template: &str, variables: &str) -> (ErrorKind, usize) {
    let error = rendered(template, variables).unwrap_err();
    (error.kind, error.position)
}

fn assets() -> Vec<Asset> {
    vec![
        Asset {
            key: b"css".to_vec(),
            prefix: b"<style>\n".to_vec(),
            suffix: b"</style>".to_vec(),
            content: Some(b"p { margin: 0 }".to_vec()),
        },
        Asset {
            key: b"js".to_vec(),
            prefix: b"<script>\n".to_vec(),
            suffix: b"</script>".to_vec(),
            content: None,
        },
    ]
}

#[test]
fn parser_should_handle_template_variable_with_reverse_pipe() {
    let template = "\
<div>{{ name | $reverse }}</div>\
"
    .to_string();

    let variables = "
{
    name: 12345
}
"
    .to_string();

    let mut parser = Parser::from_string(template, variables, Vec::new()).unwrap();
    parser.run().unwrap();
    let result = parser.result().unwrap();

    assert_eq!(result, "<div>54321</div>");
}

#[test]
fn parser_should_handle_template_loop_with_reverse_pipe() {
    let template = "\
{* items | $reverse *}<div>{{ $it.name }}</div>{}\
"
    .to_string();

    let variables = "
{
    items: [
        {
            name: One
        }
        {
            name: Two
        }
        {
            name: Three
        }
    ]
}
"
    .to_string();

    let mut parser = Parser::from_string(template, variables, Vec::new()).unwrap();
    parser.run().unwrap();
    let result = parser.result().unwrap();

    assert_eq!(result, "<div>Three</div><div>Two</div><div>One</div>");
}

#[test]
fn variable_is_substituted() {
    assert_eq!(
        rendered("<p>{{ name }}</p>", "{ name: World }").unwrap(),
        "<p>World</p>"
    );
    assert_eq!(rendered("{{name}}", "{ name: World }").unwrap(), "World");
    assert_eq!(
        rendered("{{ a.b.c }}", "{ a: { b: { c: deep } } }").unwrap(),
        "deep"
    );
}

#[test]
fn text_is_copied() {
    assert_eq!(rendered("", "{}").unwrap(), "");
    assert_eq!(rendered("plain text", "{}").unwrap(), "plain text");
    assert_eq!(rendered("a{", "{}").unwrap(), "a{");
    assert_eq!(rendered("a}}b*}c", "{}").unwrap(), "a}}b*}c");
    assert_eq!(rendered("gr\u{fc}\u{df}e {{ n }}", "{ n: \u{4e2d} }").unwrap(), "gr\u{fc}\u{df}e \u{4e2d}");
}

#[test]
fn block_end_outside_of_a_block_is_text() {
    assert_eq!(rendered("a{}b", "{}").unwrap(), "a{}b");
    assert_eq!(rendered("{}", "{}").unwrap(), "{}");
}

#[test]
fn loop_runs_its_body_for_each_item_in_order() {
    assert_eq!(
        rendered("{* items *}[{{ $it }}]{}", "{ items: [a b c] }").unwrap(),
        "[a][b][c]"
    );
    assert_eq!(
        rendered("<{* items *}{{ title }}-{{ $it }} {}>", "{ title: T items: [a b] }").unwrap(),
        "<T-a T-b >"
    );
}

#[test]
fn loop_item_is_bound_only_inside_the_body() {
    assert_eq!(
        failure("{{ $it }}{* items *}x{}", "{ items: [a b] }"),
        (ErrorKind::UndefinedReference, 0)
    );
    assert_eq!(
        failure("{* items *}x{}{{ $it }}", "{ items: [a b] }"),
        (ErrorKind::UndefinedReference, 14)
    );
    assert_eq!(
        rendered("{* items *}x{}{{ $it }}", "{ items: [a b] $it: outer }").unwrap(),
        "xxouter"
    );
    assert_eq!(
        rendered("{* items *}{{ $it }}{}", "{ items: [a b] $it: outer }").unwrap(),
        "ab"
    );
}

#[test]
fn loops_nest() {
    assert_eq!(
        rendered(
            "{* rows *}{* $it.cells *}{{ $it }};{}|{}",
            "{ rows: [ { cells: [1 2] } { cells: [3] } { cells: [] } ] }"
        )
        .unwrap(),
        "1;2;|3;||"
    );
}

#[test]
fn loop_without_items_skips_its_body() {
    assert_eq!(
        rendered("a{* items *}b{{ nope }}{* x *}{}{}c", "{ items: [] }").unwrap(),
        "ac"
    );
}

#[test]
fn loop_with_sort_pipe() {
    assert_eq!(
        rendered(
            "{* items | $sort ($int_cmp $2.n.v $1.n.v) *}{{ $it.n.v }},{}",
            "{ items: [{n:{v:10}} {n:{v:5}} {n:{v:55}} {n:{v:18}}] }"
        )
        .unwrap(),
        "55,18,10,5,"
    );
}

#[test]
fn optional_block_with_a_path_that_names_something_is_run() {
    assert_eq!(
        rendered("a{? name ?}[{{ name }}]{}z", "{ name: N }").unwrap(),
        "a[N]z"
    );
    assert_eq!(
        rendered("{? name ?}yes{} tail", "{ name: N }").unwrap(),
        "yes tail"
    );
    assert_eq!(
        rendered("{* items *}{? $it.tag ?}<{{ $it.tag }}>{}{{ $it.n }} {}", "{ items: [{n:1 tag:t} {n:2}] }")
            .unwrap(),
        "<t>1 2 "
    );
}

#[test]
fn optional_block_with_a_missing_path_is_skipped() {
    assert_eq!(
        rendered("a{? missing ?}b{* items *}c{}d{? x ?}e{}f{}g", "{ items: [1] }").unwrap(),
        "ag"
    );
    assert_eq!(
        rendered("{? a.b ?}x{}y", "{ a: text }").unwrap(),
        "y"
    );
    assert_eq!(
        rendered("{? name | $reverse ?}x{}y", "{ name: N }").unwrap(),
        "y"
    );
}

#[test]
fn inline_asset_is_wrapped_in_its_markup() {
    assert_eq!(
        render("<head>{> css <}</head>", "{}", assets()).unwrap(),
        "<head><style>\np { margin: 0 }</style></head>"
    );
    let missing = render("{> js <}", "{}", assets()).unwrap_err();
    assert_eq!((missing.kind, missing.position), (ErrorKind::UndefinedReference, 0));
    let unknown = render("ab{> png <}", "{}", assets()).unwrap_err();
    assert_eq!((unknown.kind, unknown.position), (ErrorKind::UndefinedReference, 2));
}

#[test]
fn undefined_variable_aborts() {
    assert_eq!(
        failure("<p>{{ nope }}</p>", "{ name: World }"),
        (ErrorKind::UndefinedReference, 3)
    );
    assert_eq!(
        failure("{{ a.c }}", "{ a: { b: x } }"),
        (ErrorKind::UndefinedReference, 0)
    );
    assert_eq!(failure("{{ }}", "{ a: x }"), (ErrorKind::UndefinedReference, 0));
}

#[test]
fn wrong_shape_aborts() {
    assert_eq!(
        failure("{* name *}x{}", "{ name: World }"),
        (ErrorKind::ShapeMismatch, 0)
    );
    assert_eq!(
        failure("{{ items }}", "{ items: [a] }"),
        (ErrorKind::ShapeMismatch, 0)
    );
    assert_eq!(
        failure("{{ name.first }}", "{ name: World }"),
        (ErrorKind::ShapeMismatch, 0)
    );
    assert_eq!(failure("{{ a }}", "text"), (ErrorKind::ShapeMismatch, 0));
    assert_eq!(
        failure("{{ items | $reverse }}", "{ items: [a] }"),
        (ErrorKind::ShapeMismatch, 0)
    );
}

#[test]
fn malformed_pipe_aborts() {
    assert_eq!(
        failure("{* items | $sort (oops *}x{}", "{ items: [a b] }"),
        (ErrorKind::Syntax, 0)
    );
    assert_eq!(
        failure("{{ name | $shout }}", "{ name: World }"),
        (ErrorKind::Pipe, 0)
    );
    assert_eq!(
        failure("{{ o | $reverse }}", "{ o: { a: b } }"),
        (ErrorKind::Pipe, 0)
    );
    assert_eq!(
        failure("{* items | $sort ($int_cmp $1 $2) *}x{}", "{ items: [1 x] }"),
        (ErrorKind::NumericParse, 0)
    );
}

#[test]
fn unterminated_directive_or_block_aborts() {
    assert_eq!(failure("x{{ name", "{ name: World }"), (ErrorKind::Syntax, 1));
    assert_eq!(failure("x{{ name }", "{ name: World }"), (ErrorKind::Syntax, 1));
    assert_eq!(failure("{* items *}x", "{ items: [a] }"), (ErrorKind::Syntax, 12));
    assert_eq!(failure("{* items *}x", "{ items: [] }"), (ErrorKind::Syntax, 0));
    assert_eq!(failure("ab{? nope ?}x", "{}"), (ErrorKind::Syntax, 2));
    assert_eq!(failure("{? name ?}x", "{ name: N }"), (ErrorKind::Syntax, 11));
    assert_eq!(failure("{> css", "{}"), (ErrorKind::Syntax, 0));
}

#[test]
fn bad_data_aborts() {
    assert_eq!(failure("x", "{ a: "), (ErrorKind::Syntax, 5));
    assert_eq!(failure("x", "{ : }"), (ErrorKind::Lex, 2));
}

#[test]
fn blocks_can_nest_up_to_the_limit() {
    let nest = |n: usize| {
        let mut template = String::new();
        for _ in 0..n {
            template.push_str("{* a *}");
        }
        template.push('x');
        for _ in 0..n {
            template.push_str("{}");
        }
        rendered(&template, "{ a: [1] }")
    };
    assert_eq!(nest(MAX_DEPTH - 1).unwrap(), "x");
    let error = nest(MAX_DEPTH).unwrap_err();
    assert_eq!(error.kind, ErrorKind::Syntax);
    assert_eq!(error.position, 7 * (MAX_DEPTH - 1));
}

#[test]
fn bytes_are_rendered_as_they_are() {
    let root = ron::parse("{ n: v }".to_string()).unwrap();
    let out = render_bytes(&[0xff, b'{', b'{', b'n', b'}', b'}', 0xfe], root, Vec::new());
    assert_eq!(out, Ok(vec![0xff, b'v', 0xfe]));
}

#[test]
fn output_that_is_no_text_is_a_lex_error() {
    let root = ron::parse("{}".to_string()).unwrap();
    let mut parser = Parser::new(vec![b'a', 0xff], root, Vec::new());
    parser.run().unwrap();
    assert_eq!(
        parser.result(),
        Err(Error { kind: ErrorKind::Lex, position: 0 })
    );
}

#[test]
fn failed_run_leaves_no_output() {
    let template = "some text before {{ nope }}".to_string();
    let mut parser = Parser::from_string(template, "{}".to_string(), Vec::new()).unwrap();
    assert_eq!(
        parser.run(),
        Err(Error { kind: ErrorKind::UndefinedReference, position: 17 })
    );
    assert_eq!(parser.into_bytes(), Vec::<u8>::new());
}
