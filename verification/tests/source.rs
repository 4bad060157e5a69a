use std::io;
use std::io::Read;
use unnest_ndjson::source::accept_read;
use unnest_ndjson::{HeaderStyle, Source, UnnestError, Unnester};

/// A reader that hands out at most `step` bytes at a time.
struct Lazy<'a> {
    data: &'a [u8],
    step: usize,
}

impl<'a> Read for Lazy<'a> {
    fn read(&mut self, buf: &mut [u8]) -> io::Result<usize> {
        let n = self.step.min(buf.len()).min(self.data.len());
        buf[..n].copy_from_slice(&self.data[..n]);
        self.data = &self.data[n..];
        Ok(n)
    }
}

/// A reader that fails after its data.
struct Broken<'a> {
    data: &'a [u8],
}

impl<'a> Read for Broken<'a> {
    fn read(&mut self, buf: &mut [u8]) -> io::Result<usize> {
        if self.data.is_empty() {
            return Err(io::Error::new(io::ErrorKind::Other, "broken"));
        }
        let n = 1.min(buf.len());
        buf[..n].copy_from_slice(&self.data[..n]);
        self.data = &self.data[n..];
        Ok(n)
    }
}

#[test]
fn fill_reads_what_the_reader_has() {
    let mut source = Source::new(&b"abc"[..]);
    assert_eq!(source.buf(), b"");
    source.fill().expect("fill");
    assert_eq!(source.buf(), b"abc");
    source.fill().expect("fill with unread bytes");
    assert_eq!(source.buf(), b"abc");
}

#[test]
fn fill_does_not_stop_at_a_short_read() {
    let data = b"0123456789";
    let mut source = Source::new(Lazy { data, step: 3 });
    source.fill().expect("fill");
    assert_eq!(source.buf(), data);
}

#[test]
fn fill_at_the_end_of_input() {
    let mut source = Source::new(&b""[..]);
    assert!(matches!(
        source.fill(),
        Err(UnnestError::UnexpectedEndOfInput)
    ));
    let mut source = Source::new(&b"ab"[..]);
    source.fill().expect("fill");
    source.consume(2);
    assert!(matches!(
        source.fill(),
        Err(UnnestError::UnexpectedEndOfInput)
    ));
    assert_eq!(source.buf(), b"");
}

#[test]
fn fill_hands_on_a_failure() {
    let mut source = Source::new(Broken { data: b"" });
    assert!(matches!(source.fill(), Err(UnnestError::Io(_))));
    let mut source = Source::new(Broken { data: b"x" });
    assert!(matches!(source.next(), Err(UnnestError::Io(_))));
}

#[test]
fn next_and_peek() {
    let mut source = Source::new(&b"xyz"[..]);
    assert_eq!(source.peek().expect("peek"), b'x');
    assert_eq!(source.peek().expect("peek"), b'x');
    assert_eq!(source.next().expect("next"), b'x');
    assert_eq!(source.next().expect("next"), b'y');
    assert_eq!(source.peek().expect("peek"), b'z');
    assert_eq!(source.buf(), b"z");
    assert_eq!(source.next().expect("next"), b'z');
    assert!(matches!(
        source.peek(),
        Err(UnnestError::UnexpectedEndOfInput)
    ));
    assert!(matches!(
        source.next(),
        Err(UnnestError::UnexpectedEndOfInput)
    ));
}

#[test]
fn consume_and_discard() {
    let mut source = Source::new(&b"hello world"[..]);
    source.fill().expect("fill");
    source.consume(6);
    assert_eq!(source.buf(), b"world");
    source.consume(0);
    assert_eq!(source.buf(), b"world");
    source.all_useless();
    assert_eq!(source.buf(), b"");
    assert!(matches!(
        source.next(),
        Err(UnnestError::UnexpectedEndOfInput)
    ));
}

#[test]
fn input_larger_than_the_buffer() {
    let data: Vec<u8> = (0..40_000u32).map(|i| (i % 251) as u8).collect();
    let mut source = Source::new(Lazy {
        data: &data,
        step: 1000,
    });
    source.fill().expect("fill");
    assert_eq!(source.buf().len(), 16 * 1024);
    assert_eq!(source.buf(), &data[..16 * 1024]);
    source.consume(16 * 1024 - 10);
    source.fill().expect("fill");
    assert_eq!(source.buf(), &data[16 * 1024 - 10..16 * 1024]);
    let mut seen = Vec::new();
    source.all_useless();
    loop {
        match source.next() {
            Ok(b) => seen.push(b),
            Err(UnnestError::UnexpectedEndOfInput) => break,
            Err(e) => panic!("{:?}", e),
        }
    }
    assert_eq!(seen, &data[16 * 1024..]);
}

#[test]
fn streaming_through_a_source() {
    let mut input = Vec::new();
    input.push(b'[');
    for i in 0..5000 {
        if i != 0 {
            input.extend_from_slice(b", ");
        }
        input.extend_from_slice(format!("{{\"n\": {}, \"s\": \"a\\\"b\"}}", i).as_bytes());
    }
    input.push(b']');
    assert!(input.len() > 3 * 16 * 1024);
    let mut source = Source::new(Lazy {
        data: &input,
        step: 777,
    });
    let mut engine = Unnester::new(1, HeaderStyle::Bare).expect("engine");
    let mut out = Vec::new();
    let mut rounds = 0;
    while !engine.pull(&mut source, &mut out).expect("pull") {
        rounds += 1;
    }
    assert!(rounds >= 4);
    let mut expected = String::new();
    for i in 0..5000 {
        expected.push_str(&format!("{{\"n\":{},\"s\":\"a\\\"b\"}}\n", i));
    }
    assert_eq!(String::from_utf8(out).unwrap(), expected);
}

#[test]
fn pull_takes_the_end_of_input() {
    let mut engine = Unnester::new(0, HeaderStyle::Bare).expect("engine");
    let mut source = Source::new(&b" 12"[..]);
    let mut out = Vec::new();
    assert!(!engine.pull(&mut source, &mut out).expect("pull"));
    assert_eq!(out, b"12");
    assert_eq!(source.buf(), b"");
    assert!(engine.pull(&mut source, &mut out).expect("pull"));
    assert_eq!(out, b"12\n");
}

#[test]
fn pull_fails_where_the_run_fails() {
    let mut engine = Unnester::new(1, HeaderStyle::Bare).expect("engine");
    let mut source = Source::new(&b"[1, 2"[..]);
    let mut out = Vec::new();
    assert!(!engine.pull(&mut source, &mut out).expect("pull"));
    assert!(matches!(
        engine.pull(&mut source, &mut out),
        Err(UnnestError::UnexpectedEndOfInput)
    ));
    assert_eq!(out, b"1\n2\n");

    let mut engine = Unnester::new(1, HeaderStyle::Bare).expect("engine");
    let mut source = Source::new(&b"[1 2]"[..]);
    let mut out = Vec::new();
    assert!(matches!(
        engine.pull(&mut source, &mut out),
        Err(UnnestError::InvalidSyntax)
    ));
    assert_eq!(out, b"1\n");

    let mut engine = Unnester::new(1, HeaderStyle::Bare).expect("engine");
    let mut source = Source::new(Broken { data: b"[1" });
    let mut out = Vec::new();
    assert!(matches!(
        engine.pull(&mut source, &mut out),
        Err(UnnestError::Io(_))
    ));
}

#[test]
fn what_a_read_has_brought() {
    assert!(matches!(
        accept_read(0, 10, Ok(0)),
        Err(UnnestError::UnexpectedEndOfInput)
    ));
    assert!(matches!(accept_read(3, 10, Ok(0)), Ok(0)));
    assert!(matches!(accept_read(0, 10, Ok(4)), Ok(4)));
    assert!(matches!(accept_read(3, 10, Ok(10)), Ok(10)));
    assert!(matches!(accept_read(0, 10, Ok(11)), Ok(10)));
    assert!(matches!(accept_read(2, 0, Ok(5)), Ok(0)));
    let broken = io::Error::new(io::ErrorKind::BrokenPipe, "gone");
    match accept_read(2, 5, Err(broken)) {
        Err(UnnestError::Io(e)) => assert_eq!(e.kind(), io::ErrorKind::BrokenPipe),
        other => panic!("{:?}", other),
    }
}
