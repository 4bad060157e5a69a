use std::io;
use unnest_ndjson::sink::{close_item, open_item, put};
use unnest_ndjson::{unnest_to_ndjson, HeaderStyle, MiniWrite, Sinker, UnnestError};

#[test]
fn vector_takes_every_byte() {
    let mut v: Vec<u8> = Vec::new();
    MiniWrite::write_all(&mut v, b"ab").expect("write");
    MiniWrite::write_all(&mut v, b"").expect("write");
    MiniWrite::write_all(&mut v, b"c").expect("write");
    assert_eq!(v, b"abc");
}

#[test]
fn wrapper_opens_with_the_path() {
    let mut v: Vec<u8> = Vec::new();
    v.observe_new_item(&[], HeaderStyle::PathArray).expect("open");
    assert_eq!(v, br#"{"key":[],"value":"#);

    let mut v: Vec<u8> = Vec::new();
    v.observe_new_item(&[b"\"a\"".to_vec()], HeaderStyle::PathArray)
        .expect("open");
    assert_eq!(v, br#"{"key":["a"],"value":"#);

    let mut v: Vec<u8> = Vec::new();
    let path = vec![b"\"a\"".to_vec(), b"12".to_vec(), b"\"b c\"".to_vec()];
    v.observe_new_item(&path, HeaderStyle::PathArray).expect("open");
    assert_eq!(v, br#"{"key":["a",12,"b c"],"value":"#);
}

#[test]
fn bare_fragments_have_no_wrapper() {
    let mut v: Vec<u8> = Vec::new();
    let path = vec![b"\"a\"".to_vec()];
    v.observe_new_item(&path, HeaderStyle::Bare).expect("open");
    assert_eq!(v, b"");
    v.observe_end(HeaderStyle::Bare).expect("end");
    assert_eq!(v, b"\n");
}

#[test]
fn wrapper_closes_with_a_brace() {
    let mut v: Vec<u8> = Vec::new();
    v.observe_end(HeaderStyle::PathArray).expect("end");
    assert_eq!(v, b"}\n");
}

#[test]
fn helpers_write_what_the_sink_writes() {
    let mut v: Vec<u8> = Vec::new();
    open_item(&mut v, &[b"0".to_vec()], HeaderStyle::PathArray).expect("open");
    put(&mut v, b"true").expect("put");
    close_item(&mut v, HeaderStyle::PathArray).expect("close");
    assert_eq!(v, b"{\"key\":[0],\"value\":true}\n");
}

/// A sink that takes a given number of bytes and then fails.
struct Full {
    room: usize,
    taken: Vec<u8>,
}

impl MiniWrite for Full {
    fn write_all(&mut self, buf: &[u8]) -> io::Result<()> {
        if buf.len() > self.room {
            return Err(io::Error::new(io::ErrorKind::WriteZero, "full"));
        }
        self.room -= buf.len();
        self.taken.extend_from_slice(buf);
        Ok(())
    }
}

impl Sinker for Full {}

#[test]
fn failure_of_the_sink_is_handed_on() {
    let mut sink = Full {
        room: 5,
        taken: Vec::new(),
    };
    let r = unnest_to_ndjson(b"[1, 2, 3, 4]", &mut sink, 1, HeaderStyle::Bare);
    match r {
        Err(UnnestError::Io(e)) => assert_eq!(e.kind(), io::ErrorKind::WriteZero),
        other => panic!("{:?}", other),
    }
    assert_eq!(sink.taken, b"1\n2\n3");

    let mut sink = Full {
        room: 0,
        taken: Vec::new(),
    };
    assert!(matches!(put(&mut sink, b"x"), Err(UnnestError::Io(_))));
    assert!(matches!(
        open_item(&mut sink, &[], HeaderStyle::PathArray),
        Err(UnnestError::Io(_))
    ));
    assert!(matches!(
        close_item(&mut sink, HeaderStyle::Bare),
        Err(UnnestError::Io(_))
    ));
    assert!(open_item(&mut sink, &[], HeaderStyle::Bare).is_ok());
}

/// A sink that counts what it is told.
#[derive(Default)]
struct Count {
    opened: Vec<Vec<Vec<u8>>>,
    closed: usize,
    bytes: Vec<u8>,
}

impl MiniWrite for Count {
    fn write_all(&mut self, buf: &[u8]) -> io::Result<()> {
        self.bytes.extend_from_slice(buf);
        Ok(())
    }
}

impl Sinker for Count {
    fn observe_new_item(&mut self, path: &[Vec<u8>], _: HeaderStyle) -> io::Result<()> {
        self.opened.push(path.to_vec());
        Ok(())
    }

    fn observe_end(&mut self, _: HeaderStyle) -> io::Result<()> {
        self.closed += 1;
        self.bytes.push(b'|');
        Ok(())
    }
}

#[test]
fn items_are_announced_only_where_paths_are_kept() {
    let input = br#"{"a": [1, {"b": 2}], "c": "d"}"#;
    let mut sink = Count::default();
    unnest_to_ndjson(input, &mut sink, 2, HeaderStyle::PathArray).expect("unnest");
    assert_eq!(
        sink.opened,
        vec![
            vec![b"\"a\"".to_vec(), b"0".to_vec()],
            vec![b"\"a\"".to_vec(), b"1".to_vec()],
            vec![b"\"c\"".to_vec()],
        ]
    );
    assert_eq!(sink.closed, 3);
    assert_eq!(sink.bytes, b"1|{\"b\":2}|\"d\"|");

    let mut sink = Count::default();
    unnest_to_ndjson(input, &mut sink, 2, HeaderStyle::Bare).expect("unnest");
    assert!(sink.opened.is_empty());
    assert_eq!(sink.closed, 3);
    assert_eq!(sink.bytes, b"1|{\"b\":2}|\"d\"|");
}
