//! Where fragments go.
//!
//! A sink takes raw bytes ([`MiniWrite`]) and is told where each fragment
//! starts and ends ([`Sinker`]). Left alone, the two notifications render
//! newline-delimited JSON onto the byte sink; a sink that wants the structure
//! instead overrides them.

use vstd::prelude::*;
use crate::bytes::{CLOSE_BRACE, COMMA, LINE_FEED};
use crate::error::UnnestError;
use crate::style::{HeaderStyle, item_prefix, item_suffix, joined, segments, wrapper_middle, wrapper_open};

verus! {

/// A destination for bytes.
///
/// A sink may vouch for two things, and by default vouches for neither.
/// One that is `recorded` keeps a `transcript` which grows by exactly the
/// bytes it accepts. One that is `reliable` accepts every write.
pub trait MiniWrite {
    /// Whether `transcript` is kept.
    open spec fn recorded(&self) -> bool {
        false
    }

    /// Everything accepted so far, in order.
    open spec fn transcript(&self) -> Seq<u8> {
        Seq::empty()
    }

    /// Whether every write succeeds.
    open spec fn reliable(&self) -> bool {
        false
    }

    /// Takes all of `buf`, or fails.
    fn write_all(&mut self, buf: &[u8]) -> (r: Result<(), std::io::Error>)
        ensures
            old(self).recorded() ==> final(self).recorded(),
            old(self).recorded() && r is Ok ==> final(self).transcript() == old(self).transcript()
                + buf@,
            old(self).reliable() ==> r is Ok && final(self).reliable(),
    ;
}

/// `after` is `before` once it has accepted `bytes`: a transcript that was
/// kept is still kept and has grown by them, and a sink that was reliable
/// still is.
pub open spec fn wrote<W: MiniWrite>(before: W, after: W, bytes: Seq<u8>) -> bool {
    &&& before.recorded() ==> after.recorded() && after.transcript() == before.transcript() + bytes
    &&& before.reliable() ==> after.reliable()
}

/// Writes add up.
pub proof fn lemma_wrote_both<W: MiniWrite>(
    before: W,
    between: W,
    after: W,
    first: Seq<u8>,
    second: Seq<u8>,
)
    requires
        wrote(before, between, first),
        wrote(between, after, second),
    ensures
        wrote(before, after, first + second),
{
    assert((before.transcript() + first) + second =~= before.transcript() + (first + second));
}

/// To write nothing changes nothing.
pub proof fn lemma_wrote_nothing<W: MiniWrite>(sink: W)
    ensures
        wrote(sink, sink, Seq::empty()),
{
    assert(sink.transcript() + Seq::<u8>::empty() =~= sink.transcript());
}

/// Hands `buf` to the sink, and a failure on as the engine's own.
pub fn put<W: MiniWrite>(into: &mut W, buf: &[u8]) -> (r: Result<(), UnnestError>)
    ensures
        match r {
            Ok(()) => wrote(*old(into), *final(into), buf@),
            Err(UnnestError::Io(_)) => !old(into).reliable(),
            Err(_) => false,
        },
{
    match into.write_all(buf) {
        Ok(()) => Ok(()),
        Err(e) => Err(UnnestError::Io(e)),
    }
}

/// A destination for fragments.
///
/// For each fragment the engine calls `observe_new_item` (only when paths
/// are kept), then `write_all` with the fragment's bytes, then `observe_end`.
///
/// In a transcript the two notifications count as the bytes that they
/// write when they are left alone, whatever a sink that overrides them does
/// instead.
pub trait Sinker: MiniWrite {
    /// A fragment found under `path` starts. Writes the opening of the
    /// wrapper unless overridden.
    fn observe_new_item(&mut self, path: &[Vec<u8>], header_style: HeaderStyle) -> (r: Result<
        (),
        std::io::Error,
    >)
        ensures
            old(self).recorded() ==> final(self).recorded(),
            old(self).recorded() && r is Ok ==> final(self).transcript() == old(self).transcript()
                + item_prefix(segments(path@), header_style),
            old(self).reliable() ==> r is Ok && final(self).reliable(),
    {
        if header_style == HeaderStyle::Bare {
            assert(old(self).transcript() + item_prefix(segments(path@), header_style) =~= old(
                self,
            ).transcript());
            return Ok(());
        }
        let open: [u8; 8] = [0x7b, 0x22, 0x6b, 0x65, 0x79, 0x22, 0x3a, 0x5b];
        assert(open@ =~= wrapper_open());
        self.write_all(open.as_slice())?;
        let ghost parts = segments(path@);
        let mut pos: usize = 0;
        while pos < path.len()
            invariant
                pos <= path.len(),
                parts == segments(path@),
                old(self).recorded() ==> self.recorded(),
                old(self).reliable() ==> self.reliable(),
                old(self).recorded() ==> self.transcript() == old(self).transcript()
                    + wrapper_open() + joined(parts.take(pos as int)) + (if 0 < pos
                    && pos < path.len() {
                    seq![COMMA]
                } else {
                    Seq::empty()
                }),
            decreases path.len() - pos,
        {
            let ghost before = self.transcript();
            self.write_all(path[pos].as_slice())?;
            proof {
                let upto = parts.take(pos as int + 1);
                assert(upto.drop_last() =~= parts.take(pos as int));
                assert(upto.last() == path@[pos as int]@);
                if old(self).recorded() {
                    assert(self.transcript() =~= old(self).transcript() + wrapper_open() + joined(
                        upto,
                    ));
                }
            }
            if pos != path.len() - 1 {
                let comma: [u8; 1] = [COMMA];
                assert(comma@ =~= seq![COMMA]);
                self.write_all(comma.as_slice())?;
            }
            pos = pos + 1;
            proof {
                if old(self).recorded() {
                    assert(self.transcript() =~= old(self).transcript() + wrapper_open() + joined(
                        parts.take(pos as int),
                    ) + (if 0 < pos && pos < path.len() {
                        seq![COMMA]
                    } else {
                        Seq::empty()
                    }));
                }
            }
        }
        let middle: [u8; 10] = [0x5d, 0x2c, 0x22, 0x76, 0x61, 0x6c, 0x75, 0x65, 0x22, 0x3a];
        assert(middle@ =~= wrapper_middle());
        assert(parts.take(pos as int) =~= parts);
        let r = self.write_all(middle.as_slice());
        proof {
            if old(self).recorded() && r is Ok {
                assert(self.transcript() =~= old(self).transcript() + item_prefix(
                    parts,
                    header_style,
                ));
            }
        }
        r
    }

    /// The fragment is complete. Writes the end of the wrapper, if any, and
    /// a line break unless overridden.
    fn observe_end(&mut self, header_style: HeaderStyle) -> (r: Result<(), std::io::Error>)
        ensures
            old(self).recorded() ==> final(self).recorded(),
            old(self).recorded() && r is Ok ==> final(self).transcript() == old(self).transcript()
                + item_suffix(header_style),
            old(self).reliable() ==> r is Ok && final(self).reliable(),
    {
        match header_style {
            HeaderStyle::Bare => {
                let line: [u8; 1] = [LINE_FEED];
                assert(line@ =~= item_suffix(header_style));
                self.write_all(line.as_slice())
            },
            HeaderStyle::PathArray => {
                let close: [u8; 2] = [CLOSE_BRACE, LINE_FEED];
                assert(close@ =~= item_suffix(header_style));
                self.write_all(close.as_slice())
            },
        }
    }
}

/// Tells the sink that a fragment found under `path` starts, and hands a
/// failure on as the engine's own.
pub fn open_item<S: Sinker>(into: &mut S, path: &[Vec<u8>], header_style: HeaderStyle) -> (r:
    Result<(), UnnestError>)
    ensures
        match r {
            Ok(()) => wrote(
                *old(into),
                *final(into),
                item_prefix(segments(path@), header_style),
            ),
            Err(UnnestError::Io(_)) => !old(into).reliable(),
            Err(_) => false,
        },
{
    match into.observe_new_item(path, header_style) {
        Ok(()) => Ok(()),
        Err(e) => Err(UnnestError::Io(e)),
    }
}

/// Tells the sink that the fragment is complete, and hands a failure on as
/// the engine's own.
pub fn close_item<S: Sinker>(into: &mut S, header_style: HeaderStyle) -> (r: Result<
    (),
    UnnestError,
>)
    ensures
        match r {
            Ok(()) => wrote(*old(into), *final(into), item_suffix(header_style)),
            Err(UnnestError::Io(_)) => !old(into).reliable(),
            Err(_) => false,
        },
{
    match into.observe_end(header_style) {
        Ok(()) => Ok(()),
        Err(e) => Err(UnnestError::Io(e)),
    }
}

/// A vector takes every byte and is its own transcript.
impl MiniWrite for Vec<u8> {
    open spec fn recorded(&self) -> bool {
        true
    }

    open spec fn transcript(&self) -> Seq<u8> {
        self@
    }

    open spec fn reliable(&self) -> bool {
        true
    }

    fn write_all(&mut self, buf: &[u8]) -> (r: Result<(), std::io::Error>) {
        self.extend_from_slice(buf);
        assert(self@ =~= old(self)@ + buf@);
        Ok(())
    }
}

impl Sinker for Vec<u8> {

}

#[verifier::external_type_specification]
#[verifier::external_body]
pub struct ExIgnore(iowrap::Ignore);

/// `iowrap::Ignore::new`, which makes a sink that drops what it is given.
/// Nothing is claimed of the value.
pub assume_specification[ iowrap::Ignore::new ]() -> (sink: iowrap::Ignore)
;

/// Calls `Write::write_all` of `iowrap::Ignore`, which does nothing and
/// reports success whatever it is given. That it succeeds is all that is
/// claimed.
#[verifier::external_body]
fn ignore_all(sink: &mut iowrap::Ignore, buf: &[u8]) -> (r: Result<(), std::io::Error>)
    ensures
        r is Ok,
{
    std::io::Write::write_all(sink, buf)
}

/// The sink of `iowrap` that drops every byte: it keeps no transcript, and
/// it never fails.
impl MiniWrite for iowrap::Ignore {
    open spec fn reliable(&self) -> bool {
        true
    }

    fn write_all(&mut self, buf: &[u8]) -> (r: Result<(), std::io::Error>) {
        ignore_all(self, buf)
    }
}

} // verus!
