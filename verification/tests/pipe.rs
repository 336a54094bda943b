use rustache::error::ErrorKind;
use rustache::pipe::{
    parse, parser_byte, parser_byte_ranges, parser_many, parser_map, parser_or, parser_seq, Expr,
    Op, Parsed, ParserState, Pipe, ReversePipe, SortPipe,
};
use rustache::ron;
use rustache::ron::Value;

fn bytes(word: &[u8]) -> Parsed {
    Parsed::List(word.iter().map(|b| Parsed::Byte(*b)).collect())
}

#[test]
fn reverse_pipe_should_reverse_text() {
    let pipe = parse("$reverse").unwrap();
    let value = Value::Text("123456".to_string());
    let expected = Value::Text("654321".to_string());

    assert_eq!(pipe.apply(&value).unwrap(), expected)
}

#[test]
fn test_parser_byte() {
    let mut state = ParserState::from_string("123abc!$#");
    let parser = parser_byte_ranges(vec![(b'0', b'9'), (b'a', b'z')]);

    let result = parser.attempt(&mut state);

    assert_eq!(result.unwrap().unwrap(), Parsed::Byte(b'1'));
}

#[test]
fn test_parser_seq() {
    let mut state = ParserState::from_string("1234abc!$#");
    let parser = parser_seq(vec![
        parser_byte(b'1'),
        parser_byte(b'2'),
        parser_byte(b'3'),
        parser_or(vec![parser_byte(b'4')]),
    ]);

    let result = parser.attempt(&mut state);

    assert_eq!(result.unwrap().unwrap(), bytes(&[b'1', b'2', b'3', b'4']));
    assert_eq!(state.pos, 4);
}

#[test]
fn test_parser_seq_failed() {
    let mut state = ParserState::from_string("123abc!$#");
    let parser = parser_seq(vec![
        parser_byte(b'3'),
        parser_byte(b'2'),
        parser_byte(b'1'),
    ]);

    let result = parser.attempt(&mut state);

    if let Ok(None) = result {
        assert_eq!(state.pos, 0);
    } else {
        assert!(false);
    }
}

#[test]
fn test_parser_map() {
    let mut state = ParserState::from_string("123abc!$#");
    let parser = parser_map(
        parser_seq(vec![
            parser_byte(b'1'),
            parser_byte(b'2'),
            parser_byte(b'3'),
        ]),
        |x: Parsed| String::from_utf8(x.into_bytes()).unwrap(),
    );

    let result = parser.attempt(&mut state);

    assert_eq!(result.unwrap().unwrap(), "123".to_string());
    assert_eq!(state.pos, 3);
}

#[test]
fn test_parser_or() {
    let mut state = ParserState::from_string("123abc!$#");
    let parser = parser_or(vec![
        parser_byte(b'a'),
        parser_byte(b'3'),
        parser_byte(b'2'),
        parser_byte(b'1'),
    ]);

    let result = parser.attempt(&mut state);

    assert_eq!(result.unwrap().unwrap(), Parsed::Byte(b'1'));
    assert_eq!(state.pos, 1);
}

#[test]
fn test_expr() {
    let result = Expr::from_string("($int_cmp $2.count $1.count)");

    assert_eq!(
        result.unwrap(),
        Expr::Call(
            Op::IntCompare,
            vec![
                Expr::Id("$2.count".to_string()),
                Expr::Id("$1.count".to_string())
            ]
        )
    )
}

#[test]
fn test_sort_pipe_sub() {
    let pipe = parse("$sort ($int_cmp $2.count.value $1.count.value)").unwrap();

    let value = ron::parse(
        "\
[
    {
        count: {
            value: 10
        }
    }
    {
         count: {
            value: 5
        }
    }
    {
         count: {
            value: 55
        }
    }
    {
         count: {
            value: 18
        }
    }
]"
        .to_string(),
    )
    .unwrap();

    let expected = ron::parse(
        "\
[
    {
        count: {
            value: 55
        }
    }
    {
        count: {
            value: 18
        }
    }
    {
        count: {
            value: 10
        }
    }
    {
        count: {
            value: 5
        }
    }
]"
        .to_string(),
    )
    .unwrap();

    assert_eq!(pipe.apply(&value).unwrap(), expected)
}

#[test]
fn test_sort_pipe_str_cmp() {
    let pipe = parse("$sort ($str_cmp $2.count.value $1.count.value)").unwrap();

    let value = ron::parse(
        "\
[
    {
        count: {
            value: c#
        }
    }
    {
         count: {
            value: g#
        }
    }
    {
         count: {
            value: a#
        }
    }
    {
         count: {
            value: b
        }
    }
]"
        .to_string(),
    )
    .unwrap();

    let expected = ron::parse(
        "\
[
    {
        count: {
            value: g#
        }
    }
    {
        count: {
            value: c#
        }
    }
    {
        count: {
            value: b
        }
    }
    {
        count: {
            value: a#
        }
    }
]"
        .to_string(),
    )
    .unwrap();

    assert_eq!(pipe.apply(&value).unwrap(), expected)
}

fn document(s: &str) -> Value {
    ron::parse(s.to_string()).unwrap()
}

fn kind_of<T>(result: Result<T, ErrorKind>) -> Option<ErrorKind> {
    result.err()
}

#[test]
fn reverse_pipe_reverses_an_array_and_keeps_its_items() {
    let pipe = ReversePipe::from_string("".to_string()).unwrap();
    let value = document("[1 { a: [x y] } 3]");
    let expected = document("[3 { a: [x y] } 1]");
    assert_eq!(pipe.apply(&value).unwrap(), expected);
    assert_eq!(pipe.apply(&pipe.apply(&value).unwrap()).unwrap(), value);
}

#[test]
fn reverse_pipe_reverses_code_points() {
    let pipe = parse("$reverse").unwrap();
    let value = Value::Text("12345".to_string());
    assert_eq!(pipe.apply(&value).unwrap(), Value::Text("54321".to_string()));
    let accents = Value::Text("a\u{e9}\u{4e2d}z".to_string());
    assert_eq!(
        pipe.apply(&accents).unwrap(),
        Value::Text("z\u{4e2d}\u{e9}a".to_string())
    );
    let combining = Value::Text("e\u{301}x".to_string());
    assert_eq!(
        pipe.apply(&combining).unwrap(),
        Value::Text("x\u{301}e".to_string())
    );
    assert_eq!(
        pipe.apply(&Value::Text(String::new())).unwrap(),
        Value::Text(String::new())
    );
}

#[test]
fn reverse_pipe_refuses_an_object() {
    let pipe = parse("$reverse anything at all").unwrap();
    assert_eq!(kind_of(pipe.apply(&document("{ a: b }"))), Some(ErrorKind::Pipe));
}

#[test]
fn unknown_pipe_is_a_pipe_error() {
    assert_eq!(kind_of(parse("$shuffle")), Some(ErrorKind::Pipe));
    assert_eq!(kind_of(parse("")), Some(ErrorKind::Pipe));
    assert_eq!(kind_of(parse(" $reverse")), Some(ErrorKind::Pipe));
}

#[test]
fn malformed_sort_parameters_are_a_syntax_error() {
    assert_eq!(kind_of(parse("$sort")), Some(ErrorKind::Syntax));
    assert_eq!(kind_of(parse("$sort ($int_cmp $1.a)")), Some(ErrorKind::Syntax));
    assert_eq!(kind_of(parse("$sort ($max $1.a $2.a)")), Some(ErrorKind::Syntax));
    assert_eq!(kind_of(parse("$sort ($int_cmp $1.a $1.a)")), Some(ErrorKind::Syntax));
    assert_eq!(kind_of(parse("$sort ($int_cmp $1.a $3.a)")), Some(ErrorKind::Syntax));
    assert_eq!(kind_of(parse("$sort ($int_cmp $10.a $2.a)")), Some(ErrorKind::Syntax));
    assert_eq!(kind_of(parse("$sort ($int_cmp a b)")), Some(ErrorKind::Syntax));
    assert_eq!(kind_of(parse("$sort ($int_cmp  $1.a $2.a)")), Some(ErrorKind::Syntax));
    assert_eq!(kind_of(parse("$sort ($int_cmp $1.a $2.a")), Some(ErrorKind::Syntax));
    assert_eq!(
        kind_of(SortPipe::from_string("$int_cmp $1 $2".to_string())),
        Some(ErrorKind::Syntax)
    );
    assert!(SortPipe::from_string("($int_cmp $1 $2)".to_string()).is_ok());
    assert!(parse("$sort ($str_cmp $2 $1) and more").is_ok());
}

#[test]
fn sort_pipe_orders_numbers_downwards() {
    let pipe = parse("$sort ($int_cmp $2.n.v $1.n.v)").unwrap();
    let value = document("[{n:{v:10}} {n:{v:5}} {n:{v:55}} {n:{v:18}}]");
    let expected = document("[{n:{v:55}} {n:{v:18}} {n:{v:10}} {n:{v:5}}]");
    assert_eq!(pipe.apply(&value).unwrap(), expected);
}

#[test]
fn sort_pipe_orders_numbers_upwards() {
    let pipe = parse("$sort ($int_cmp $1.n.v $2.n.v)").unwrap();
    let value = document("[{n:{v:10}} {n:{v:5}} {n:{v:55}} {n:{v:18}}]");
    let expected = document("[{n:{v:5}} {n:{v:10}} {n:{v:18}} {n:{v:55}}]");
    assert_eq!(pipe.apply(&value).unwrap(), expected);
}

#[test]
fn sort_pipe_compares_numbers_not_texts() {
    let numeric = parse("$sort ($int_cmp $1 $2)").unwrap();
    let textual = parse("$sort ($str_cmp $1 $2)").unwrap();
    let value = document("[10 9 +7 008]");
    assert_eq!(numeric.apply(&value).unwrap(), document("[+7 008 9 10]"));
    assert_eq!(textual.apply(&value).unwrap(), document("[+7 008 10 9]"));
}

#[test]
fn sort_pipe_is_stable() {
    let up = parse("$sort ($int_cmp $1.k $2.k)").unwrap();
    let down = parse("$sort ($int_cmp $2.k $1.k)").unwrap();
    let value = document("[{k:2 t:a} {k:1 t:b} {k:2 t:c} {k:1 t:d} {k:02 t:e}]");
    assert_eq!(
        up.apply(&value).unwrap(),
        document("[{k:1 t:b} {k:1 t:d} {k:2 t:a} {k:2 t:c} {k:02 t:e}]")
    );
    assert_eq!(
        down.apply(&value).unwrap(),
        document("[{k:2 t:a} {k:2 t:c} {k:02 t:e} {k:1 t:b} {k:1 t:d}]")
    );
}

#[test]
fn sort_pipe_reads_each_side_by_its_own_path() {
    let pipe = parse("$sort ($int_cmp $2.b $1.a)").unwrap();
    let value = document("[{a:1 b:9} {a:5 b:2}]");
    assert_eq!(pipe.apply(&value).unwrap(), document("[{a:5 b:2} {a:1 b:9}]"));
    let other = document("[{a:1 b:9} {a:5 b:0}]");
    assert_eq!(pipe.apply(&other).unwrap(), other);
    let third = document("[{a:1 b:0} {a:0 b:3}]");
    assert_eq!(pipe.apply(&third).unwrap(), document("[{a:0 b:3} {a:1 b:0}]"));
}

#[test]
fn sort_pipe_takes_short_arrays_as_they_are() {
    let pipe = parse("$sort ($int_cmp $1.k $2.k)").unwrap();
    assert_eq!(pipe.apply(&document("[]")).unwrap(), document("[]"));
    assert_eq!(pipe.apply(&document("[x]")).unwrap(), document("[x]"));
}

#[test]
fn sort_pipe_errors() {
    let numeric = parse("$sort ($int_cmp $1.k $2.k)").unwrap();
    assert_eq!(kind_of(numeric.apply(&document("text"))), Some(ErrorKind::Pipe));
    assert_eq!(kind_of(numeric.apply(&document("{ k: 1 }"))), Some(ErrorKind::Pipe));
    assert_eq!(
        kind_of(numeric.apply(&document("[{k:1} {j:2}]"))),
        Some(ErrorKind::UndefinedReference)
    );
    assert_eq!(
        kind_of(numeric.apply(&document("[{k:1} 2]"))),
        Some(ErrorKind::ShapeMismatch)
    );
    assert_eq!(
        kind_of(numeric.apply(&document("[{k:1} {k:[2]}]"))),
        Some(ErrorKind::ShapeMismatch)
    );
    assert_eq!(
        kind_of(numeric.apply(&document("[{k:1} {k:x}]"))),
        Some(ErrorKind::NumericParse)
    );
    assert_eq!(
        kind_of(numeric.apply(&document("[{k:1} {k:-2}]"))),
        Some(ErrorKind::NumericParse)
    );
    assert_eq!(
        kind_of(numeric.apply(&document("[{k:4294967296} {k:2}]"))),
        Some(ErrorKind::NumericParse)
    );
    assert!(numeric.apply(&document("[{k:4294967295} {k:2}]")).is_ok());
    assert_eq!(
        kind_of(numeric.apply(&document("[{k:+} {k:2}]"))),
        Some(ErrorKind::NumericParse)
    );
}

#[test]
fn many_stops_where_nothing_is_consumed() {
    let mut state = ParserState::from_string("aab");
    let parser = parser_many(parser_many(parser_byte(b'a')));
    let result = parser.attempt(&mut state).unwrap().unwrap();
    assert_eq!(result, Parsed::List(vec![bytes(b"aa")]));
    assert_eq!(state.pos, 2);
    let empty = parser_many(parser_byte(b'x'));
    assert_eq!(empty.attempt(&mut state).unwrap().unwrap(), Parsed::List(vec![]));
    assert_eq!(state.pos, 2);
}

#[test]
fn or_restores_the_position_between_attempts() {
    let mut state = ParserState::from_string("abd");
    let parser = parser_or(vec![
        parser_seq(vec![parser_byte(b'a'), parser_byte(b'b'), parser_byte(b'c')]),
        parser_seq(vec![parser_byte(b'a'), parser_byte(b'b'), parser_byte(b'd')]),
    ]);
    assert_eq!(parser.attempt(&mut state).unwrap().unwrap(), bytes(b"abd"));
    assert_eq!(state.pos, 3);
    assert_eq!(parser.attempt(&mut state).unwrap(), None);
    assert_eq!(state.pos, 3);
}

#[test]
fn parser_state_steps_through_its_input() {
    let mut state = ParserState::from_string("ab");
    assert!(!state.is_at_end());
    assert_eq!(state.peek(), b'a');
    state.advance();
    assert_eq!(state.peek(), b'b');
    state.advance();
    assert!(state.is_at_end());
}

#[test]
fn expression_is_a_call_on_two_names() {
    assert_eq!(
        Expr::from_string("($str_cmp $1 $2.a_b.C9) and the rest"),
        Ok(Expr::Call(
            Op::StringCompare,
            vec![Expr::Id("$1".to_string()), Expr::Id("$2.a_b.C9".to_string())]
        ))
    );
    assert_eq!(
        Expr::from_string("($int_cmp  )"),
        Ok(Expr::Call(
            Op::IntCompare,
            vec![Expr::Id(String::new()), Expr::Id(String::new())]
        ))
    );
    assert_eq!(Expr::from_string("$int_cmp $1 $2"), Err(ErrorKind::Syntax));
    assert_eq!(Expr::from_string("($int_cmp $1 $2"), Err(ErrorKind::Syntax));
    assert_eq!(Expr::from_string("($int_cmp $1,$2)"), Err(ErrorKind::Syntax));
    assert_eq!(Expr::from_string("($INT_CMP $1 $2)"), Err(ErrorKind::Syntax));
    assert_eq!(Expr::from_string(""), Err(ErrorKind::Syntax));
}
