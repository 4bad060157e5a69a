use itertools::Itertools;
use std::collections::HashMap;
use std::io;
use unnest_ndjson::{unnest_to_ndjson, HeaderStyle, MiniWrite, Sinker, UnnestError};

#[derive(Default)]
struct Gather {
    inner: HashMap<String, String>,
    key: String,
    current: Vec<u8>,
}

impl MiniWrite for Gather {
    fn write_all(&mut self, buf: &[u8]) -> io::Result<()> {
        io::Write::write_all(&mut self.current, buf)
    }
}

impl Sinker for Gather {
    fn observe_new_item(&mut self, path: &[Vec<u8>], _: HeaderStyle) -> io::Result<()> {
        self.key = path
            .iter()
            .map(|b| String::from_utf8_lossy(b).to_string())
            .join(" // ");
        Ok(())
    }

    fn observe_end(&mut self, _: HeaderStyle) -> io::Result<()> {
        let value = String::from_utf8_lossy(&self.current).to_string();
        self.current.truncate(0);
        self.inner.insert(self.key.clone(), value);
        Ok(())
    }
}

#[test]
fn load_map() -> Result<(), UnnestError> {
    let mut map = Gather::default();
    unnest_to_ndjson(
        br#"["a", "b", "c"]"#,
        &mut map,
        1,
        HeaderStyle::PathArray,
    )?;

    let mut expected = HashMap::new();
    expected.insert("0".to_string(), r#""a""#.to_string());
    expected.insert("1".to_string(), r#""b""#.to_string());
    expected.insert("2".to_string(), r#""c""#.to_string());
    assert_eq!(map.inner, expected);

    Ok(())
}

#[test]
fn nested_paths_are_joined_in_order() {
    let mut map = Gather::default();
    unnest_to_ndjson(
        br#"{"a": {"x": 1, "y": [2]}, "b": [{"z": 3}]}"#,
        &mut map,
        2,
        HeaderStyle::PathArray,
    )
    .expect("unnest");
    let mut expected = HashMap::new();
    expected.insert("\"a\" // \"x\"".to_string(), "1".to_string());
    expected.insert("\"a\" // \"y\"".to_string(), "[2]".to_string());
    expected.insert("\"b\" // 0".to_string(), r#"{"z":3}"#.to_string());
    assert_eq!(map.inner, expected);
}
