use aws_smithy_json::deserialize::json_token_iter;
use jstream::path_value_writer::json_pointer::{Options as JSONPointerWriterOptions, Writer as JSONPointerWriter};
use jstream::stream;

#[test]
fn simple_object() {
    let s = b"{\"a\":1, \"b\":5, \"c\":9}";

    let tokens = json_token_iter(s);

    let mut writer = JSONPointerWriter::new(JSONPointerWriterOptions::default());

    stream(&mut writer, tokens).unwrap();

    let challenge = "/a\t1\n/b\t5\n/c\t9\n";

    assert_eq!(writer.output().as_str(), challenge);
}

#[test]
fn simple_array() {
    let s = b"[1,2,3,null,true,false,\"ok\"]";
    let tokens = json_token_iter(s);

    let mut writer = JSONPointerWriter::new(JSONPointerWriterOptions::default());

    stream(&mut writer, tokens).unwrap();

    let challenge = "/0\t1\n/1\t2\n/2\t3\n/3\tnull\n/4\ttrue\n/5\tfalse\n/6\t\"ok\"\n";

    assert_eq!(writer.output().as_str(), challenge);
}

#[test]
fn simple_nested_object() {
    let s = b"{\"a\":{\"b\":{\"c\":99}}}";
    let tokens = json_token_iter(s);

    let mut writer = JSONPointerWriter::new(JSONPointerWriterOptions::default());

    stream(&mut writer, tokens).unwrap();

    let challenge = "/a/b/c\t99\n";

    assert_eq!(writer.output().as_str(), challenge);
}

#[test]
fn simple_nested_array() {
    let s = b"[1,[2,[3]]]";
    // /0 1
    // /1/0 2
    // /1/1/0 3
    let tokens = json_token_iter(s);

    let mut writer = JSONPointerWriter::new(JSONPointerWriterOptions::default());

    stream(&mut writer, tokens).unwrap();

    let challenge = "/0\t1\n/1/0\t2\n/1/1/0\t3\n";

    assert_eq!(writer.output().as_str(), challenge);
}

#[test]
fn nested_array_nulls() {
    let s = b"[null, [null], null, [null, null]]";
    let tokens = json_token_iter(s);

    let mut writer = JSONPointerWriter::new(JSONPointerWriterOptions::default());

    stream(&mut writer, tokens).unwrap();

    let challenge = "/0\tnull\n/1/0\tnull\n/2\tnull\n/3/0\tnull\n/3/1\tnull\n";

    assert_eq!(writer.output().as_str(), challenge);
}

#[test]
fn weird_nested_objects_and_arrays() {
    let s = br#"{"a":[{"b":[1,2,3]}]"#;
    let tokens = json_token_iter(s);
    let mut writer = JSONPointerWriter::new(JSONPointerWriterOptions::default());

    stream(&mut writer, tokens).unwrap();

    let challenge = "/a/0/b/0\t1\n/a/0/b/1\t2\n/a/0/b/2\t3\n";

    assert_eq!(writer.output().as_str(), challenge);
}

#[test]
fn weird_array() {
    let s = br#"[ [ [ "a", "b", "c" ], [ "d", "e", "f" ], [ "g", "h", "i" ], [ "j", "k", "l" ] ] ]"#;

    let tokens = json_token_iter(s);
    let mut writer = JSONPointerWriter::new(JSONPointerWriterOptions::default());

    stream(&mut writer, tokens).unwrap();

    let challenge = "/0/0/0\t\"a\"\n/0/0/1\t\"b\"\n/0/0/2\t\"c\"\n/0/1/0\t\"d\"\n/0/1/1\t\"e\"\n/0/1/2\t\"f\"\n/0/2/0\t\"g\"\n/0/2/1\t\"h\"\n/0/2/2\t\"i\"\n/0/3/0\t\"j\"\n/0/3/1\t\"k\"\n/0/3/2\t\"l\"\n";

    assert_eq!(writer.output().as_str(), challenge);
}

#[test]
fn more_weird() {
    let s = b"{
            \"features\": [
                { \"geometry\": {
                    \"coordinates\": [
                        [
                            [ \"a\", \"b\", \"c\" ],
                            [ \"d\", \"e\", \"f\" ],
                            [ \"g\", \"h\", \"i\" ],
                            [ \"j\", \"k\", \"l\" ]
                        ]
                    ]
                }}
            ]
        }";

    let tokens = json_token_iter(s);
    let mut writer = JSONPointerWriter::new(JSONPointerWriterOptions::default());

    stream(&mut writer, tokens).unwrap();

    let challenge = "/features/0/geometry/coordinates/0/0/0\t\"a\"\n/features/0/geometry/coordinates/0/0/1\t\"b\"\n/features/0/geometry/coordinates/0/0/2\t\"c\"\n/features/0/geometry/coordinates/0/1/0\t\"d\"\n/features/0/geometry/coordinates/0/1/1\t\"e\"\n/features/0/geometry/coordinates/0/1/2\t\"f\"\n/features/0/geometry/coordinates/0/2/0\t\"g\"\n/features/0/geometry/coordinates/0/2/1\t\"h\"\n/features/0/geometry/coordinates/0/2/2\t\"i\"\n/features/0/geometry/coordinates/0/3/0\t\"j\"\n/features/0/geometry/coordinates/0/3/1\t\"k\"\n/features/0/geometry/coordinates/0/3/2\t\"l\"\n";

    assert_eq!(writer.output().as_str(), challenge);
}

#[test]
fn empty_object_doesnt_mess_up_array() {
    // note the empty object at /d/e/f/0
    let s = br#"
        {
            "a": 1,
            "b": 2,
            "c": ["x", "y", "z"],
            "d": {"e": {"f": [{}, 9, "g"]}}
        }"#;

    let tokens = json_token_iter(s);
    let mut writer = JSONPointerWriter::new(JSONPointerWriterOptions::default());

    stream(&mut writer, tokens).unwrap();

    println!("{}", writer.output());

    let challenge = "/a\t1\n/b\t2\n/c/0\t\"x\"\n/c/1\t\"y\"\n/c/2\t\"z\"\n/d/e/f/1\t9\n/d/e/f/2\t\"g\"\n";

    assert_eq!(writer.output().as_str(), challenge);
}

#[test]
fn empty_array_doesnt_mess_up_array() {
    // note the empty array at /d/e/f/0
    let s = br#"
        {
            "a": 1,
            "b": 2,
            "c": ["x", "y", "z"],
            "d": {"e": {"f": [[], 9, "g"]}}
        }"#;

    let tokens = json_token_iter(s);
    let mut writer = JSONPointerWriter::new(JSONPointerWriterOptions::default());

    stream(&mut writer, tokens).unwrap();

    println!("{}", writer.output());

    let challenge = "/a\t1\n/b\t2\n/c/0\t\"x\"\n/c/1\t\"y\"\n/c/2\t\"z\"\n/d/e/f/1\t9\n/d/e/f/2\t\"g\"\n";

    assert_eq!(writer.output().as_str(), challenge);
}

#[test]
fn empty_object_doesnt_mess_up_object() {
    // note the empty object at /d/e/f/g
    let s = br#"
        {
            "a": 1,
            "b": 2,
            "c": ["x", "y", "z"],
            "d": {"e": {"f": {"g": {}}}}
        }"#;

    let tokens = json_token_iter(s);
    let mut writer = JSONPointerWriter::new(JSONPointerWriterOptions::default());

    stream(&mut writer, tokens).unwrap();

    println!("{}", writer.output());

    let challenge = "/a\t1\n/b\t2\n/c/0\t\"x\"\n/c/1\t\"y\"\n/c/2\t\"z\"\n";

    assert_eq!(writer.output().as_str(), challenge);
}

#[test]
fn empty_array_doesnt_mess_up_object() {
    // note the empty array at /d/e/f/g
    let s = br#"
        {
            "a": 1,
            "b": 2,
            "c": ["x", "y", "z"],
            "d": {"e": {"f": {"g": []}}}
        }"#;

    let tokens = json_token_iter(s);
    let mut writer = JSONPointerWriter::new(JSONPointerWriterOptions::default());

    stream(&mut writer, tokens).unwrap();

    println!("{}", writer.output());

    let challenge = "/a\t1\n/b\t2\n/c/0\t\"x\"\n/c/1\t\"y\"\n/c/2\t\"z\"\n";

    assert_eq!(writer.output().as_str(), challenge);
}
