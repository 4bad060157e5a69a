use serde_json::from_slice;
use serde_json::Value;
use unnest_ndjson::unnest_to_ndjson;
use unnest_ndjson::HeaderStyle;

#[test]
fn stack_abuse() {
    let mut buf = Vec::with_capacity(4000);
    let level = 8_634;
    buf.extend_from_slice(&vec![b'['; level]);
    buf.push(b'5');
    buf.extend_from_slice(&vec![b']'; level]);
    let mut out = Vec::with_capacity(4);
    unnest_to_ndjson(&buf, &mut out, level - 1, HeaderStyle::PathArray).expect("success");
    println!("{}", String::from_utf8_lossy(&out));
    let mut expected = Vec::new();
    expected.extend_from_slice(br#"{"key":["#);
    for i in 0..level - 1 {
        if i != 0 {
            expected.push(b',');
        }
        expected.push(b'0');
    }
    expected.extend_from_slice(br#"],"value":[5]}"#);
    expected.push(b'\n');
    assert_eq!(out, expected);
    let out: Value = from_slice(&out).expect("valid json");
    let out = out.as_object().expect("object");
    let key = out
        .get("key")
        .expect("key exists")
        .as_array()
        .expect("key array");
    let val = out
        .get("value")
        .expect("value exists")
        .as_array()
        .expect("out array");
    assert_eq!(level - 1, key.len());
    assert!(key.iter().all(|v| v == &Value::from(0)));
    assert_eq!(val, &vec![Value::from(5)]);
}
