use serde_json::from_slice;
use serde_json::from_str;
use serde_json::to_vec_pretty;
use serde_json::Value;
use std::io;
use unnest_ndjson::{unnest_to_ndjson, HeaderStyle, MiniWrite, Sinker};

fn json(text: &str) -> Value {
    from_str(text).expect("reference value")
}

fn test_with(orig: &Value, expected: &[Value], target: usize, header_style: HeaderStyle) {
    let input = to_vec_pretty(&orig).expect("serialisation of reference value");
    let mut output = Vec::with_capacity(input.len());
    let () = unnest_to_ndjson(&input, &mut output, target, header_style).expect("unnest");
    let mut lines = Vec::with_capacity(expected.len());
    println!("{}", String::from_utf8_lossy(&output));
    for line in output.split(|&c| b'\n' == c) {
        if line.is_empty() {
            continue;
        }
        let line: Value = from_slice(line).expect("valid json");
        lines.push(line);
    }
    for (i, line) in lines.iter().enumerate() {
        assert_eq!(
            expected.get(i),
            Some(line),
            "comparing line {} (zero indexed)",
            i
        );
    }
    assert_eq!(expected, lines.as_slice());
}

fn mixed_array() -> Value {
    json(
        r#"[
            5,
            "potato",
            true,
            {},
            { "baz": 6 },
            { "foo": { "bar": 6 } },
            { "aye": 7, "be": 8 },
            [],
            [ 5 ],
            [ 5, 6 ]
        ]"#,
    )
}

fn mixed_object() -> Value {
    json(
        r#"{
            "number": 5,
            "string": "potato",
            "boolean": true,
            "emptyObject": {},
            "flatObject": { "baz": 6 },
            "nestedObject": { "foo": { "bar": 6 } },
            "doubleObject": { "aye": 7, "be": 8 },
            "emptyArray": [],
            "singleArray": [ 5 ],
            "doubleArray": [ 5, 6 ]
        }"#,
    )
}

#[test]
fn empty() {
    test_with(&json("{}"), &[], 1, HeaderStyle::PathArray);
    test_with(&json("[]"), &[], 1, HeaderStyle::PathArray);
}

#[test]
fn single_level_array() {
    test_with(
        &mixed_array(),
        &[
            json(r#"{"key": [0], "value": 5}"#),
            json(r#"{"key": [1], "value": "potato"}"#),
            json(r#"{"key": [2], "value": true}"#),
            json(r#"{"key": [3], "value": {}}"#),
            json(r#"{"key": [4], "value": { "baz": 6 }}"#),
            json(r#"{"key": [5], "value": { "foo": { "bar": 6 } }}"#),
            json(r#"{"key": [6], "value": { "aye": 7, "be": 8 }}"#),
            json(r#"{"key": [7], "value": []}"#),
            json(r#"{"key": [8], "value": [ 5 ]}"#),
            json(r#"{"key": [9], "value": [ 5, 6 ]}"#),
        ],
        1,
        HeaderStyle::PathArray,
    );
}

#[test]
fn single_level_object() {
    test_with(
        &mixed_object(),
        &[
            json(r#"{"key": ["number"], "value": 5}"#),
            json(r#"{"key": ["string"], "value": "potato"}"#),
            json(r#"{"key": ["boolean"], "value": true}"#),
            json(r#"{"key": ["emptyObject"], "value": {}}"#),
            json(r#"{"key": ["flatObject"], "value": { "baz": 6 }}"#),
            json(r#"{"key": ["nestedObject"], "value": { "foo": { "bar": 6 } }}"#),
            json(r#"{"key": ["doubleObject"], "value": { "aye": 7, "be": 8 }}"#),
            json(r#"{"key": ["emptyArray"], "value": []}"#),
            json(r#"{"key": ["singleArray"], "value": [ 5 ]}"#),
            json(r#"{"key": ["doubleArray"], "value": [ 5, 6 ]}"#),
        ],
        1,
        HeaderStyle::PathArray,
    );
}

#[test]
fn unicodes() {
    test_with(
        &json(r#"{ "bàh": 5, "five": "résumé" }"#),
        &[
            json(r#"{"key": ["bàh"], "value": 5}"#),
            json(r#"{"key": ["five"], "value": "résumé"}"#),
        ],
        1,
        HeaderStyle::PathArray,
    );
}

#[derive(Default)]
struct Capture {
    caught: Vec<String>,
    current: Vec<u8>,
}

impl MiniWrite for Capture {
    fn write_all(&mut self, buf: &[u8]) -> io::Result<()> {
        io::Write::write_all(&mut self.current, buf)
    }
}

impl Sinker for Capture {
    fn observe_end(&mut self, _: HeaderStyle) -> io::Result<()> {
        self.caught
            .push(String::from_utf8(self.current.clone()).expect("valid utf8"));
        self.current.clear();
        Ok(())
    }
}

#[test]
fn unicodes_str() {
    let mut capture = Capture::default();
    unnest_to_ndjson(
        &br#"{"five": "r\u00ebr"}"#[..],
        &mut capture,
        1,
        HeaderStyle::Bare,
    )
    .expect("unnest");
    assert_eq!(capture.caught, vec!["\"r\\u00ebr\""]);
}

#[test]
fn double_level_object() {
    test_with(
        &mixed_object(),
        &[
            json(r#"{"key": ["number"], "value": 5}"#),
            json(r#"{"key": ["string"], "value": "potato"}"#),
            json(r#"{"key": ["boolean"], "value": true}"#),
            json(r#"{"key": ["flatObject", "baz"], "value": 6}"#),
            json(r#"{"key": ["nestedObject", "foo"], "value": { "bar": 6 }}"#),
            json(r#"{"key": ["doubleObject", "aye"], "value": 7}"#),
            json(r#"{"key": ["doubleObject", "be"], "value": 8}"#),
            json(r#"{"key": ["singleArray", 0], "value": 5}"#),
            json(r#"{"key": ["doubleArray", 0], "value": 5}"#),
            json(r#"{"key": ["doubleArray", 1], "value": 6}"#),
        ],
        2,
        HeaderStyle::PathArray,
    );
}

#[test]
fn double_level_object_no_headers() {
    test_with(
        &mixed_object(),
        &[
            json("5"),
            json(r#""potato""#),
            json("true"),
            json("6"),
            json(r#"{ "bar": 6 }"#),
            json("7"),
            json("8"),
            json("5"),
            json("5"),
            json("6"),
        ],
        2,
        HeaderStyle::Bare,
    );
}
