use aws_smithy_json::deserialize::json_token_iter;
use jstream::path_value_writer::json_pointer::{Options, Writer};
use jstream::{is_terminal, stream, stream_tokens, JsonNumber, PathComponent, State, StreamError, Token};

fn flatten_str(input: &[u8]) -> String {
    let mut writer = Writer::new(Options::default());
    stream(&mut writer, json_token_iter(input)).unwrap();
    writer.output().clone()
}

#[test]
fn root_scalar_has_empty_path() {
    // A root document that is a single scalar: one line, empty path, the
    // separator immediately followed by the value.
    assert_eq!(flatten_str(b"7"), "\t7\n");
    assert_eq!(flatten_str(b"\"ok\""), "\t\"ok\"\n");
    assert_eq!(flatten_str(b"null"), "\tnull\n");
}

#[test]
fn empty_object_in_array_keeps_following_indices() {
    // The element after the empty object is at index 1, not 0 and not 2.
    let out = flatten_str(br#"{"d": {"e": {"f": [{}, 9, "g"]}}}"#);
    assert_eq!(out, "/d/e/f/1\t9\n/d/e/f/2\t\"g\"\n");
}

#[test]
fn empty_array_member_writes_nothing_by_default() {
    let out = flatten_str(br#"{"g": []}"#);
    assert_eq!(out, "");
}

#[test]
fn number_forms_are_preserved() {
    // Exact integers keep their digits; a float renders as its shortest
    // round-trip decimal.
    let out = flatten_str(br#"[10, -5, 1.5, 18446744073709551615, -9223372036854775808]"#);
    assert_eq!(
        out,
        "/0\t10\n/1\t-5\n/2\t1.5\n/3\t18446744073709551615\n/4\t-9223372036854775808\n"
    );
}

#[test]
fn deep_nesting_three_hundred_levels() {
    let depth = 300;
    let mut input = String::new();
    for _ in 0..depth {
        input.push('[');
    }
    input.push('1');
    for _ in 0..depth {
        input.push(']');
    }
    let mut expected = String::new();
    for _ in 0..depth {
        expected.push_str("/0");
    }
    expected.push_str("\t1\n");
    assert_eq!(flatten_str(input.as_bytes()), expected);
}

#[test]
fn sibling_after_deep_nest_keeps_short_path() {
    // The sibling that follows a deeply nested member must not inherit
    // any leftover of the nested path.
    let out = flatten_str(br#"{"a": {"x": {"y": 1}}, "b": 2}"#);
    assert_eq!(out, "/a/x/y\t1\n/b\t2\n");
}

#[test]
fn separator_is_configurable() {
    let mut writer = Writer::new(Options { separator: ", ", write_empty_collections: false });
    stream(&mut writer, json_token_iter(br#"{"a":1}"#)).unwrap();
    assert_eq!(writer.output().as_str(), "/a, 1\n");
}

#[test]
fn empty_collections_reported_when_enabled() {
    let opts = Options { separator: "\t", write_empty_collections: true };

    let mut writer = Writer::new(opts);
    stream(&mut writer, json_token_iter(br#"[{}, 9]"#)).unwrap();
    assert_eq!(writer.output().as_str(), "/0\t{}\n/1\t9\n");

    let mut writer = Writer::new(opts);
    stream(&mut writer, json_token_iter(br#"{"g": [], "h": {}}"#)).unwrap();
    assert_eq!(writer.output().as_str(), "/g\t[]\n/h\t{}\n");

    let mut writer = Writer::new(opts);
    stream(&mut writer, json_token_iter(b"{}")).unwrap();
    assert_eq!(writer.output().as_str(), "\t{}\n");

    let mut writer = Writer::new(opts);
    stream(&mut writer, json_token_iter(b"[]")).unwrap();
    assert_eq!(writer.output().as_str(), "\t[]\n");
}

#[test]
fn non_empty_containers_emit_no_sentinel_even_when_enabled() {
    let opts = Options { separator: "\t", write_empty_collections: true };
    let mut writer = Writer::new(opts);
    stream(&mut writer, json_token_iter(br#"{"a": [1]}"#)).unwrap();
    assert_eq!(writer.output().as_str(), "/a/0\t1\n");
}

#[test]
fn stream_tokens_on_built_tokens() {
    let tokens = vec![
        Token::StartObject,
        Token::Key("a"),
        Token::Num(JsonNumber::PosInt(1)),
        Token::Key("b"),
        Token::StartArray,
        Token::Str("x"),
        Token::Bool(true),
        Token::Null,
        Token::EndArray,
        Token::EndObject,
    ];
    let mut writer = Writer::new(Options::default());
    stream_tokens(&mut writer, &tokens).unwrap();
    assert_eq!(
        writer.output().as_str(),
        "/a\t1\n/b/0\t\"x\"\n/b/1\ttrue\n/b/2\tnull\n"
    );
}

#[test]
fn bare_scalar_token_stream() {
    let tokens = vec![Token::Num(JsonNumber::NegInt(-3))];
    let mut writer = Writer::new(Options::default());
    stream_tokens(&mut writer, &tokens).unwrap();
    assert_eq!(writer.output().as_str(), "\t-3\n");
}

#[test]
fn close_without_open_is_a_decode_error() {
    let tokens = vec![Token::EndObject];
    let mut writer = Writer::new(Options::default());
    assert_eq!(stream_tokens(&mut writer, &tokens), Err(StreamError::Decode));
    assert_eq!(writer.output().as_str(), "");
}

#[test]
fn key_outside_object_is_a_decode_error() {
    let tokens = vec![Token::Key("a")];
    let mut writer = Writer::new(Options::default());
    assert_eq!(stream_tokens(&mut writer, &tokens), Err(StreamError::Decode));
}

#[test]
fn malformed_input_is_a_decode_error() {
    let mut writer = Writer::new(Options::default());
    let r = stream(&mut writer, json_token_iter(b"{\"a\": nope}"));
    assert_eq!(r, Err(StreamError::Decode));
}

#[test]
fn everything_written_before_a_decode_error_stays() {
    let tokens = vec![
        Token::StartArray,
        Token::Num(JsonNumber::PosInt(1)),
        Token::EndArray,
        Token::EndArray,
    ];
    let mut writer = Writer::new(Options::default());
    assert_eq!(stream_tokens(&mut writer, &tokens), Err(StreamError::Decode));
    assert_eq!(writer.output().as_str(), "/0\t1\n");
}

#[test]
fn formatting_twice_is_byte_identical() {
    let tokens = vec![
        Token::StartArray,
        Token::Num(JsonNumber::PosInt(1)),
        Token::StartObject,
        Token::EndObject,
        Token::Str("s"),
        Token::EndArray,
    ];
    let mut first = Writer::new(Options::default());
    stream_tokens(&mut first, &tokens).unwrap();
    let mut second = Writer::new(Options::default());
    stream_tokens(&mut second, &tokens).unwrap();
    assert_eq!(first.output(), second.output());
}

#[test]
fn array_indices_count_every_kind_of_child() {
    // Scalars, nested objects and nested arrays all advance the index.
    let out = flatten_str(br#"[1, {"k": 2}, [3], "s"]"#);
    assert_eq!(out, "/0\t1\n/1/k\t2\n/2/0\t3\n/3\t\"s\"\n");
}

#[test]
fn state_machine_pieces() {
    assert!(is_terminal(&Token::Null));
    assert!(is_terminal(&Token::EndArray));
    assert!(!is_terminal(&Token::StartObject));
    assert!(!is_terminal(&Token::Key("k")));

    let mut state = State::new();
    assert!(state.advance(&Token::StartArray).is_ok());
    assert!(state.emission(&Token::Num(JsonNumber::PosInt(4))).is_some());
    // A close right now closes an array that never saw a child.
    let e = state.emission(&Token::EndArray);
    assert!(matches!(e, Some((0, _))));
    // Closing more than was opened is refused.
    assert!(state.advance(&Token::EndArray).is_ok());
    assert_eq!(state.advance(&Token::EndArray), Err(StreamError::Decode));
}

#[test]
fn counters_at_the_limit_give_a_limit_error() {
    // An array index that cannot advance any further.
    let mut state = State { path: vec![PathComponent::Index(usize::MAX)], depth: 1 };
    assert_eq!(state.advance(&Token::Null), Err(StreamError::Limit));
    // A nesting depth that cannot grow any further.
    let mut state = State { path: vec![], depth: usize::MAX };
    assert_eq!(state.advance(&Token::StartObject), Err(StreamError::Limit));
}

#[test]
fn output_before_a_lexer_error_stays() {
    // Everything emitted for the tokens delivered before the lexer's
    // error is written; the error then ends the traversal.
    let mut writer = Writer::new(Options::default());
    let r = stream(&mut writer, json_token_iter(b"[1, nope]"));
    assert_eq!(r, Err(StreamError::Decode));
    assert_eq!(writer.output().as_str(), "/0\t1\n");
}
