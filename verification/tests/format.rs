use flow::{parse_value, ParseFlow, StringifyFlow, Value};

fn obj(entries: Vec<(&str, Value)>) -> Value {
    Value::Object(
        entries
            .into_iter()
            .map(|(k, v)| (k.to_string(), v))
            .collect(),
    )
}

#[test]
fn coerce_bool_true() {
    assert_eq!(parse_value("true"), Value::Bool(true));
}

#[test]
fn coerce_bool_false() {
    assert_eq!(parse_value("false"), Value::Bool(false));
}

#[test]
fn coerce_integer() {
    assert_eq!(parse_value("42"), Value::Int(42));
}

#[test]
fn coerce_float() {
    assert_eq!(parse_value("3.14"), Value::Float("3.14".to_string()));
}

#[test]
fn coerce_quoted_string() {
    assert_eq!(parse_value("\"a b\""), Value::Str("a b".to_string()));
}

#[test]
fn coerce_array() {
    assert_eq!(
        parse_value("[1, 2, 3]"),
        Value::Array(vec![Value::Int(1), Value::Int(2), Value::Int(3)])
    );
}

#[test]
fn coerce_bare_string() {
    assert_eq!(parse_value("hello"), Value::Str("hello".to_string()));
}

#[test]
fn coerce_empty_array() {
    assert_eq!(parse_value("[]"), Value::Array(vec![]));
}

#[test]
fn coerce_mixed_array() {
    assert_eq!(
        parse_value("[true, false]"),
        Value::Array(vec![Value::Bool(true), Value::Bool(false)])
    );
}

#[test]
fn coerce_negative_and_signed_integers() {
    assert_eq!(parse_value("-7"), Value::Int(-7));
    assert_eq!(parse_value("+7"), Value::Int(7));
    assert_eq!(
        parse_value("-9223372036854775808"),
        Value::Int(i64::MIN)
    );
    assert_eq!(parse_value("9223372036854775807"), Value::Int(i64::MAX));
}

#[test]
fn coerce_integer_overflow_becomes_float() {
    // out of the 64-bit range, so the floating-point attempt wins
    match parse_value("9223372036854775808") {
        Value::Float(_) => {}
        other => panic!("expected a float, got {:?}", other),
    }
}

#[test]
fn coerce_unparseable_float_falls_back_to_string() {
    assert_eq!(parse_value("1.2.3"), Value::Str("1.2.3".to_string()));
}

#[test]
fn coerce_trims_input() {
    assert_eq!(parse_value("  42  "), Value::Int(42));
}

#[test]
fn parse_empty_text_yields_empty_object() {
    assert_eq!(ParseFlow(""), Value::Object(vec![]));
}

#[test]
fn parse_nested_fixture() {
    let text = "server:\n  host = \"local host\"\n  port = 8080\nflags = [true, false]\n";
    let expected = obj(vec![
        (
            "server",
            obj(vec![
                ("host", Value::Str("local host".to_string())),
                ("port", Value::Int(8080)),
            ]),
        ),
        (
            "flags",
            Value::Array(vec![Value::Bool(true), Value::Bool(false)]),
        ),
    ]);
    assert_eq!(ParseFlow(text), expected);
}

#[test]
fn parse_strips_comments() {
    assert_eq!(ParseFlow("a = 1 # comment"), obj(vec![("a", Value::Int(1))]));
}

#[test]
fn parse_tab_equals_two_spaces() {
    let tabbed = "server:\n\thost = here\n";
    let spaced = "server:\n  host = here\n";
    assert_eq!(ParseFlow(tabbed), ParseFlow(spaced));
    assert_eq!(
        ParseFlow(tabbed),
        obj(vec![(
            "server",
            obj(vec![("host", Value::Str("here".to_string()))])
        )])
    );
}

#[test]
fn parse_ignores_unrecognized_lines() {
    assert_eq!(
        ParseFlow("just some words\na = 1\n"),
        obj(vec![("a", Value::Int(1))])
    );
}

#[test]
fn parse_key_value_after_header_attaches_inside_block() {
    // the pop asymmetry: a leaf at the block's own depth stays inside it,
    // where a second header at that depth would close it
    assert_eq!(
        ParseFlow("a:\n  b = 1\n"),
        obj(vec![("a", obj(vec![("b", Value::Int(1))]))])
    );
    assert_eq!(
        ParseFlow("a:\n  c:\n"),
        obj(vec![("a", obj(vec![])), ("c", obj(vec![]))])
    );
}

#[test]
fn parse_leaf_at_header_own_indent_closes_block() {
    // at the header's own indentation even a leaf line pops the block
    assert_eq!(
        ParseFlow("a:\nb = 1\n"),
        obj(vec![("a", obj(vec![])), ("b", Value::Int(1))])
    );
}

#[test]
fn parse_last_writer_wins() {
    assert_eq!(
        ParseFlow("a = 1\na = 2\n"),
        obj(vec![("a", Value::Int(2))])
    );
}

#[test]
fn stringify_null_is_empty() {
    assert_eq!(StringifyFlow(&Value::Null), String::new());
}

#[test]
fn stringify_nested_object() {
    let v = obj(vec![
        (
            "server",
            obj(vec![
                ("host", Value::Str("local host".to_string())),
                ("port", Value::Int(8080)),
            ]),
        ),
        (
            "flags",
            Value::Array(vec![Value::Bool(true), Value::Bool(false)]),
        ),
    ]);
    assert_eq!(
        StringifyFlow(&v),
        "server:\n  host = \"local host\"\n  port = 8080\nflags = [true, false]\n"
    );
}

#[test]
fn stringify_drops_null_entries() {
    let v = obj(vec![("a", Value::Null), ("b", Value::Int(1))]);
    assert_eq!(StringifyFlow(&v), "b = 1\n");
}

#[test]
fn stringify_quotes_strings_with_spaces() {
    let v = obj(vec![("a", Value::Str("x y".to_string()))]);
    assert_eq!(StringifyFlow(&v), "a = \"x y\"\n");
}

#[test]
fn roundtrip_nested_document() {
    let v = obj(vec![
        ("flag", Value::Bool(true)),
        ("count", Value::Int(-12)),
        ("name", Value::Str("fast parser".to_string())),
        (
            "limits",
            obj(vec![
                ("low", Value::Int(1)),
                ("high", Value::Int(99)),
                ("labels", Value::Array(vec![
                    Value::Str("red".to_string()),
                    Value::Str("blue".to_string()),
                ])),
            ]),
        ),
        ("tail", Value::Int(7)),
    ]);
    let text = StringifyFlow(&v);
    assert_eq!(ParseFlow(&text), v);
}

#[test]
fn coerce_float_is_canonical_rendering() {
    // the numeric codec renders the parsed value, not the raw token
    assert_eq!(parse_value("1e2"), Value::Float("100.0".to_string()));
    assert_eq!(parse_value("0.50"), Value::Float("0.5".to_string()));
}

#[test]
fn stringify_extreme_integers() {
    let v = obj(vec![
        ("low", Value::Int(i64::MIN)),
        ("high", Value::Int(i64::MAX)),
    ]);
    assert_eq!(
        StringifyFlow(&v),
        "low = -9223372036854775808\nhigh = 9223372036854775807\n"
    );
}

#[test]
fn tokenize_lines_strips_and_filters() {
    let lines = flow::tokenize_lines("a = 1 # note\n\n\tb:\n   \n");
    assert_eq!(lines, vec!["a = 1".to_string(), "  b:".to_string()]);
}
