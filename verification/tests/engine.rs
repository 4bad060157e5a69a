use unnest_ndjson::machine::{Escape, Lex};
use unnest_ndjson::strings::{drop_whitespace, parse_string, plain_run};
use unnest_ndjson::{unnest_to_ndjson, HeaderStyle, Source, UnnestError, Unnester};

fn run(input: &[u8], target: usize, style: HeaderStyle) -> (Result<(), UnnestError>, String) {
    let mut out = Vec::new();
    let r = unnest_to_ndjson(input, &mut out, target, style);
    (r, String::from_utf8(out).expect("utf8"))
}

fn lines(input: &[u8], target: usize, style: HeaderStyle) -> String {
    let (r, out) = run(input, target, style);
    r.expect("unnest");
    out
}

fn ps(buf: &str) -> Result<String, UnnestError> {
    let mut source = Source::new(buf.as_bytes());
    // the opening quote is the caller's to take
    let quote = source.next()?;
    let mut v = vec![quote];
    source.fill()?;
    parse_string(source.buf(), 0, Escape::Plain, &mut v)?;
    Ok(String::from_utf8(v).unwrap())
}

#[test]
fn string() -> Result<(), UnnestError> {
    assert_eq!(r#""hello world""#, ps(r#""hello world""#)?);
    Ok(())
}

#[test]
fn path_of_each_member() {
    assert_eq!(
        lines(br#"{"a":{"H":6},"b":{"H":7}}"#, 1, HeaderStyle::PathArray),
        "{\"key\":[\"a\"],\"value\":{\"H\":6}}\n{\"key\":[\"b\"],\"value\":{\"H\":7}}\n"
    );
}

#[test]
fn positions_are_numbers() {
    assert_eq!(
        lines(br#"["a","b","c"]"#, 1, HeaderStyle::PathArray),
        "{\"key\":[0],\"value\":\"a\"}\n{\"key\":[1],\"value\":\"b\"}\n{\"key\":[2],\"value\":\"c\"}\n"
    );
}

#[test]
fn positions_count_past_nine() {
    let out = lines(b"[0,1,2,3,4,5,6,7,8,9,10,11]", 1, HeaderStyle::PathArray);
    let got: Vec<&str> = out.lines().collect();
    assert_eq!(got.len(), 12);
    assert_eq!(got[9], r#"{"key":[9],"value":9}"#);
    assert_eq!(got[10], r#"{"key":[10],"value":10}"#);
    assert_eq!(got[11], r#"{"key":[11],"value":11}"#);
}

#[test]
fn positions_count_past_ninety_nine() {
    let mut input = vec![b'['];
    for i in 0..=100 {
        if i != 0 {
            input.push(b',');
        }
        input.push(b'1');
    }
    input.push(b']');
    let out = lines(&input, 1, HeaderStyle::PathArray);
    let got: Vec<&str> = out.lines().collect();
    assert_eq!(got[99], r#"{"key":[99],"value":1}"#);
    assert_eq!(got[100], r#"{"key":[100],"value":1}"#);
}

#[test]
fn empty_containers_yield_nothing() {
    for style in [HeaderStyle::Bare, HeaderStyle::PathArray] {
        assert_eq!(lines(b"{}", 1, style), "");
        assert_eq!(lines(b"[]", 1, style), "");
        assert_eq!(lines(b" [ ] { } ", 3, style), "");
    }
}

#[test]
fn empty_container_at_target_is_a_fragment() {
    assert_eq!(lines(b"{}", 0, HeaderStyle::Bare), "{}\n");
    assert_eq!(
        lines(b"[[]]", 1, HeaderStyle::PathArray),
        "{\"key\":[0],\"value\":[]}\n"
    );
}

#[test]
fn leaf_above_the_target() {
    assert_eq!(
        lines(br#"{"a": 5, "b": {"c": "x"}}"#, 3, HeaderStyle::PathArray),
        "{\"key\":[\"a\"],\"value\":5}\n{\"key\":[\"b\",\"c\"],\"value\":\"x\"}\n"
    );
    assert_eq!(lines(b"7", 2, HeaderStyle::PathArray), "{\"key\":[],\"value\":7}\n");
    assert_eq!(lines(b"\"s\"", 2, HeaderStyle::Bare), "\"s\"\n");
}

#[test]
fn target_zero_copies_each_document() {
    assert_eq!(
        lines(b" {\"a\" : [1, 2 ,3] }\n[true,null] 5 \"x\"", 0, HeaderStyle::Bare),
        "{\"a\":[1,2,3]}\n[true,null]\n5\n\"x\"\n"
    );
    assert_eq!(
        lines(b"{\"a\":1}", 0, HeaderStyle::PathArray),
        "{\"key\":[],\"value\":{\"a\":1}}\n"
    );
}

#[test]
fn escapes_are_copied_not_decoded() {
    assert_eq!(
        lines(br#"["\u00eb\n\"\\\/\b\f\r\t", "\uABcd"]"#, 1, HeaderStyle::Bare),
        "\"\\u00eb\\n\\\"\\\\\\/\\b\\f\\r\\t\"\n\"\\uABcd\"\n"
    );
}

#[test]
fn keys_keep_their_escapes() {
    assert_eq!(
        lines(br#"{"a\"b\u0041": 1}"#, 1, HeaderStyle::PathArray),
        "{\"key\":[\"a\\\"b\\u0041\"],\"value\":1}\n"
    );
    assert_eq!(lines(br#"{"a\"b\u0041": 1}"#, 1, HeaderStyle::Bare), "1\n");
    assert_eq!(
        lines(br#"{"a\"b\u0041": 1}"#, 0, HeaderStyle::Bare),
        "{\"a\\\"b\\u0041\":1}\n"
    );
}

#[test]
fn raw_line_break_in_string_is_refused() {
    let (r, out) = run(b"[\"ab\ncd\", 5]", 1, HeaderStyle::Bare);
    assert!(matches!(r, Err(UnnestError::InvalidSyntax)));
    assert_eq!(out, "\"ab");
    let (r, _) = run(b"\"a\rb\"", 0, HeaderStyle::Bare);
    assert!(matches!(r, Err(UnnestError::InvalidSyntax)));
    let (r, out) = run(b"{\"a\nb\": 1}", 1, HeaderStyle::PathArray);
    assert!(matches!(r, Err(UnnestError::InvalidSyntax)));
    assert_eq!(out, "");
}

#[test]
fn bad_escapes_are_refused() {
    let (r, out) = run(br#"["a\x"]"#, 1, HeaderStyle::Bare);
    assert!(matches!(r, Err(UnnestError::InvalidSyntax)));
    assert_eq!(out, "\"a");
    let (r, out) = run(br#"["\u00g0"]"#, 1, HeaderStyle::Bare);
    assert!(matches!(r, Err(UnnestError::InvalidSyntax)));
    assert_eq!(out, "\"\\u00");
    let (r, _) = run(br#"["\u12"]"#, 1, HeaderStyle::Bare);
    assert!(matches!(r, Err(UnnestError::InvalidSyntax)));
}

#[test]
fn unterminated_escape_is_the_end_of_input() {
    let (r, out) = run(br#"["ab\"#, 1, HeaderStyle::Bare);
    assert!(matches!(r, Err(UnnestError::UnexpectedEndOfInput)));
    assert_eq!(out, "\"ab");
    let (r, _) = run(br#""\u00"#, 0, HeaderStyle::Bare);
    assert!(matches!(r, Err(UnnestError::UnexpectedEndOfInput)));
}

#[test]
fn missing_colon_is_refused() {
    let (r, out) = run(br#"[1, {"a" 5}, 2]"#, 1, HeaderStyle::Bare);
    assert!(matches!(r, Err(UnnestError::InvalidSyntax)));
    assert_eq!(out, "1\n{\"a\"");
    let (r, out) = run(br#"{"a" 5}"#, 1, HeaderStyle::PathArray);
    assert!(matches!(r, Err(UnnestError::InvalidSyntax)));
    assert_eq!(out, "");
}

#[test]
fn bad_delimiters_are_refused() {
    let (r, out) = run(b"[1 2]", 1, HeaderStyle::Bare);
    assert!(matches!(r, Err(UnnestError::InvalidSyntax)));
    assert_eq!(out, "1\n");
    let (r, _) = run(b"{\"a\":1]", 1, HeaderStyle::Bare);
    assert!(matches!(r, Err(UnnestError::InvalidSyntax)));
    let (r, _) = run(b"[1}", 1, HeaderStyle::Bare);
    assert!(matches!(r, Err(UnnestError::InvalidSyntax)));
    let (r, _) = run(b"{5:1}", 1, HeaderStyle::Bare);
    assert!(matches!(r, Err(UnnestError::InvalidSyntax)));
}

#[test]
fn input_that_ends_inside_a_value() {
    for input in [&b"["[..], b"[1", b"[1,", b"{", b"{\"a\"", b"{\"a\":", b"{\"a\":1", b"\"abc", b"[[]"] {
        let (r, _) = run(input, 1, HeaderStyle::Bare);
        assert!(
            matches!(r, Err(UnnestError::UnexpectedEndOfInput)),
            "{:?}",
            String::from_utf8_lossy(input)
        );
    }
    let (r, out) = run(b"[1, 2", 1, HeaderStyle::Bare);
    assert!(matches!(r, Err(UnnestError::UnexpectedEndOfInput)));
    assert_eq!(out, "1\n2\n");
}

#[test]
fn whitespace_only_is_a_clean_end() {
    assert_eq!(lines(b"", 1, HeaderStyle::Bare), "");
    assert_eq!(lines(b" \t\r\n\x0c ", 1, HeaderStyle::PathArray), "");
    assert_eq!(lines(b"5", 0, HeaderStyle::Bare), "5\n");
    assert_eq!(lines(b"5  ", 0, HeaderStyle::Bare), "5\n");
}

#[test]
fn commas_before_a_key_are_passed_over() {
    assert_eq!(lines(br#"{,"a":1}"#, 1, HeaderStyle::Bare), "1\n");
    assert_eq!(lines(br#"{"a":1,,"b":2}"#, 0, HeaderStyle::Bare), "{\"a\":1,\"b\":2}\n");
    assert_eq!(lines(br#"{"a":1,}"#, 0, HeaderStyle::Bare), "{\"a\":1,}\n");
    assert_eq!(lines(b"[1,]", 0, HeaderStyle::Bare), "[1,]\n");
}

#[test]
fn primitives_are_not_inspected() {
    assert_eq!(lines(b"[tru, -1e, nul]", 1, HeaderStyle::Bare), "tru\n-1e\nnul\n");
    assert_eq!(lines(b"[a\"b{c[d]", 1, HeaderStyle::Bare), "a\"b{c[d\n");
    assert_eq!(lines(b"[,1]", 0, HeaderStyle::Bare), "[,1]\n");
    assert_eq!(lines(b"[1,,2]", 1, HeaderStyle::PathArray), "{\"key\":[0],\"value\":1}\n{\"key\":[1],\"value\":,2}\n");
    assert_eq!(lines(b"] }", 0, HeaderStyle::Bare), "]\n}\n");
    let (r, out) = run(b"{\"a\":}", 1, HeaderStyle::Bare);
    assert!(matches!(r, Err(UnnestError::UnexpectedEndOfInput)));
    assert_eq!(out, "}\n");
}

#[test]
fn control_byte_ends_a_primitive() {
    let (r, out) = run(b"[1\x012]", 1, HeaderStyle::Bare);
    assert!(matches!(r, Err(UnnestError::InvalidSyntax)));
    assert_eq!(out, "1\n");
    let (r, out) = run(b"[1\x7f2]", 1, HeaderStyle::Bare);
    assert!(matches!(r, Err(UnnestError::InvalidSyntax)));
    assert_eq!(out, "1\n");
}

#[test]
fn target_that_cannot_be_counted() {
    let (r, out) = run(b"[1]", usize::MAX, HeaderStyle::Bare);
    assert!(matches!(r, Err(UnnestError::InvalidSyntax)));
    assert_eq!(out, "");
    assert!(Unnester::new(isize::MAX as usize, HeaderStyle::Bare).is_ok());
    assert!(matches!(
        Unnester::new(isize::MAX as usize + 1, HeaderStyle::Bare),
        Err(UnnestError::InvalidSyntax)
    ));
}

#[test]
fn pieces_give_what_the_whole_gives() {
    let input = br#" {"a" : [1, {"b\u00e9\"": "x\\y", "c": [true, null, -1.5e3]}, "zz"], "d": {}, "e": [[],[[7]]]} [9] "t" "#;
    for target in 0..4 {
        for style in [HeaderStyle::Bare, HeaderStyle::PathArray] {
            let whole = lines(input, target, style);
            for size in 1..9 {
                let mut engine = Unnester::new(target, style).expect("engine");
                let mut out = Vec::new();
                for piece in input.chunks(size) {
                    engine.feed(piece, &mut out).expect("feed");
                }
                engine.finish(&mut out).expect("finish");
                assert_eq!(String::from_utf8(out).unwrap(), whole);
            }
        }
    }
}

#[test]
fn primitive_split_across_pieces() {
    let mut engine = Unnester::new(1, HeaderStyle::PathArray).expect("engine");
    let mut out = Vec::new();
    engine.feed(b"[12", &mut out).expect("feed");
    engine.feed(b"34", &mut out).expect("feed");
    engine.feed(b"", &mut out).expect("feed");
    engine.feed(b",5", &mut out).expect("feed");
    assert!(matches!(
        engine.finish(&mut out),
        Err(UnnestError::UnexpectedEndOfInput)
    ));
    assert_eq!(
        String::from_utf8(out).unwrap(),
        "{\"key\":[0],\"value\":1234}\n{\"key\":[1],\"value\":5}\n"
    );
}

#[test]
fn finish_completes_a_primitive_at_the_top() {
    let mut engine = Unnester::new(0, HeaderStyle::Bare).expect("engine");
    let mut out = Vec::new();
    engine.feed(b"42", &mut out).expect("feed");
    assert_eq!(out, b"42");
    engine.finish(&mut out).expect("finish");
    assert_eq!(out, b"42\n");
}

#[test]
fn whitespace_scan() {
    assert_eq!(drop_whitespace(b" \t\n\r\x0cx ", 0), 5);
    assert_eq!(drop_whitespace(b"  ", 0), 2);
    assert_eq!(drop_whitespace(b"a  ", 0), 0);
    assert_eq!(drop_whitespace(b"a  ", 3), 3);
    assert_eq!(drop_whitespace(b"\x0b", 0), 0);
}

#[test]
fn string_scan_stops_where_it_must() {
    assert_eq!(plain_run(b"abc\"def", 0), 3);
    assert_eq!(plain_run(b"abc\\\"def", 0), 3);
    assert_eq!(plain_run(b"ab\ncd\"", 0), 2);
    assert_eq!(plain_run(b"ab\rcd\\", 0), 2);
    assert_eq!(plain_run(b"abcd", 1), 4);
    assert_eq!(plain_run(b"ab\"d\n", 3), 4);
    assert_eq!(plain_run(b"", 0), 0);
}

#[test]
fn string_scan_reports_where_the_string_stands() {
    let mut v = Vec::new();
    let r = parse_string(b"ab\\u00", 0, Escape::Plain, &mut v).expect("scan");
    assert!(matches!(r, (6, Lex::Open(Escape::Hex(2)))));
    assert_eq!(v, b"ab\\u00");
    let r = parse_string(b"e9\" tail", 0, Escape::Hex(2), &mut v).expect("scan");
    assert!(matches!(r, (3, Lex::Closed)));
    assert_eq!(v, b"ab\\u00e9\"");
    let mut v = Vec::new();
    let r = parse_string(b"ab\\", 0, Escape::Plain, &mut v).expect("scan");
    assert!(matches!(r, (3, Lex::Open(Escape::Escaped))));
    assert_eq!(v, b"ab");
    let r = parse_string(b"n\"", 0, Escape::Escaped, &mut v).expect("scan");
    assert!(matches!(r, (2, Lex::Closed)));
    assert_eq!(v, b"ab\\n\"");
}

#[test]
fn error_descriptions() {
    assert_eq!(UnnestError::InvalidSyntax.describe(), "invalid syntax");
    assert_eq!(
        UnnestError::UnexpectedEndOfInput.describe(),
        "unexpected end of input"
    );
    let io = std::io::Error::from(std::io::ErrorKind::Other);
    assert_eq!(UnnestError::Io(io).describe(), "input or output failed");
}
