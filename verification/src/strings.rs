//! The two scanners that take a token in bulk: one for the rest of a
//! string, one for the whitespace between tokens.

use vstd::prelude::*;
use vstd::slice::slice_subrange;
use crate::bytes::{
    BACKSLASH,
    CARRIAGE_RETURN,
    LINE_FEED,
    LOWER_U,
    QUOTE,
    hex_digit,
    is_whitespace,
    short_escape,
    stops_string,
    whitespace,
};
use crate::error::UnnestError;
use crate::lemmas::{lemma_scan_plain, lemma_scan_split, lemma_scan_stuck};
use crate::machine::{Escape, Lex, Scan, scan, scan_byte};
use crate::sink::{MiniWrite, lemma_wrote_both, lemma_wrote_nothing, put, wrote};

verus! {

/// `memchr::memchr2`, which gives the first place in the haystack that
/// holds either needle, if there is one.
pub assume_specification[ memchr::memchr2 ](needle1: u8, needle2: u8, haystack: &[u8]) -> (found:
    Option<usize>)
    ensures
        match found {
            Some(at) => {
                &&& at < haystack@.len()
                &&& (haystack@[at as int] == needle1 || haystack@[at as int] == needle2)
                &&& forall|i: int|
                    0 <= i < at ==> haystack@[i] != needle1 && haystack@[i] != needle2
            },
            None => forall|i: int|
                0 <= i < haystack@.len() ==> haystack@[i] != needle1 && haystack@[i] != needle2,
        },
;

/// The first place at or after `start` that does not hold whitespace, or the
/// end of `chunk`.
pub fn drop_whitespace(chunk: &[u8], start: usize) -> (end: usize)
    requires
        start <= chunk@.len(),
    ensures
        start <= end <= chunk@.len(),
        forall|i: int| start <= i < end ==> is_whitespace(#[trigger] chunk@[i]),
        end < chunk@.len() ==> !is_whitespace(chunk@[end as int]),
{
    let mut end = start;
    while end < chunk.len() && whitespace(chunk[end])
        invariant
            start <= end <= chunk@.len(),
            forall|i: int| start <= i < end ==> is_whitespace(#[trigger] chunk@[i]),
        decreases chunk@.len() - end,
    {
        end = end + 1;
    }
    end
}

/// The first place at or after `start` that holds a byte which the scan of
/// a string has to look at, or the end of `chunk`.
pub fn plain_run(chunk: &[u8], start: usize) -> (end: usize)
    requires
        start <= chunk@.len(),
    ensures
        start <= end <= chunk@.len(),
        forall|i: int| start <= i < end ==> !stops_string(#[trigger] chunk@[i]),
        end < chunk@.len() ==> stops_string(chunk@[end as int]),
{
    let rest = slice_subrange(chunk, start, chunk.len());
    let stop = match memchr::memchr2(QUOTE, BACKSLASH, rest) {
        Some(found) => found,
        None => rest.len(),
    };
    let calm = slice_subrange(rest, 0, stop);
    let safe = match memchr::memchr2(CARRIAGE_RETURN, LINE_FEED, calm) {
        Some(found) => found,
        None => stop,
    };
    proof {
        assert forall|i: int| start <= i < start + safe implies !stops_string(
            #[trigger] chunk@[i],
        ) by {
            assert(chunk@[i] == rest@[i - start]);
            assert(chunk@[i] == calm@[i - start]);
        }
        if start + safe < chunk@.len() {
            assert(chunk@[start + safe] == rest@[safe as int]);
            if safe < stop {
                assert(chunk@[start + safe] == calm@[safe as int]);
            }
        }
    }
    start + safe
}

/// Takes one byte of a string and copies to `into` what it stands for.
///
/// Gives back where the string then stands; a byte that cannot stand here
/// is `InvalidSyntax`, and nothing is copied for it.
pub fn string_byte<W: MiniWrite>(at: Escape, b: u8, into: &mut W) -> (r: Result<Lex, UnnestError>)
    ensures
        match r {
            Ok(status) => match scan_byte(at, b) {
                Scan::Copy(bytes, next) => status == Lex::Open(next) && wrote(
                    *old(into),
                    *final(into),
                    bytes,
                ),
                Scan::Done => status == Lex::Closed && wrote(
                    *old(into),
                    *final(into),
                    seq![QUOTE],
                ),
                Scan::Bad => false,
            },
            Err(UnnestError::InvalidSyntax) => scan_byte(at, b) is Bad && *final(into) == *old(
                into,
            ),
            Err(UnnestError::Io(_)) => !old(into).reliable(),
            Err(UnnestError::UnexpectedEndOfInput) => false,
        },
{
    match at {
        Escape::Plain => {
            if b == QUOTE {
                let quote: [u8; 1] = [QUOTE];
                assert(quote@ =~= seq![QUOTE]);
                put(into, quote.as_slice())?;
                Ok(Lex::Closed)
            } else if b == BACKSLASH {
                proof {
                    lemma_wrote_nothing(*into);
                }
                Ok(Lex::Open(Escape::Escaped))
            } else if b == CARRIAGE_RETURN || b == LINE_FEED {
                Err(UnnestError::InvalidSyntax)
            } else {
                let byte: [u8; 1] = [b];
                assert(byte@ =~= seq![b]);
                put(into, byte.as_slice())?;
                Ok(Lex::Open(Escape::Plain))
            }
        },
        Escape::Escaped => {
            if !short_escape(b) && b != LOWER_U {
                return Err(UnnestError::InvalidSyntax);
            }
            let escape: [u8; 2] = [BACKSLASH, b];
            assert(escape@ =~= seq![BACKSLASH, b]);
            put(into, escape.as_slice())?;
            if b == LOWER_U {
                Ok(Lex::Open(Escape::Hex(4)))
            } else {
                Ok(Lex::Open(Escape::Plain))
            }
        },
        Escape::Hex(left) => {
            if !hex_digit(b) {
                return Err(UnnestError::InvalidSyntax);
            }
            let digit: [u8; 1] = [b];
            assert(digit@ =~= seq![b]);
            put(into, digit.as_slice())?;
            if left <= 1 {
                Ok(Lex::Open(Escape::Plain))
            } else {
                Ok(Lex::Open(Escape::Hex(left - 1)))
            }
        },
    }
}

/// Takes the rest of a string from `chunk`, starting at `start`, and copies
/// it to `into` as it is written, the closing quote included.
///
/// The opening quote has been read; `phase` says where the string stands.
/// The scan ends at the closing quote, or at the end of `chunk` with the
/// string still open. It gives back where it stopped and where the string
/// then stands. A byte that cannot stand in a string is `InvalidSyntax`;
/// what was copied before it stays copied.
pub fn parse_string<W: MiniWrite>(chunk: &[u8], start: usize, phase: Escape, into: &mut W) -> (r:
    Result<(usize, Lex), UnnestError>)
    requires
        start <= chunk@.len(),
    ensures
        match r {
            Ok((end, status)) => {
                let taken = chunk@.subrange(start as int, end as int);
                &&& start <= end <= chunk@.len()
                &&& scan(phase, taken).status == status
                &&& wrote(*old(into), *final(into), scan(phase, taken).out)
                &&& match status {
                    Lex::Open(_) => end == chunk@.len(),
                    Lex::Closed => end > start && scan(
                        phase,
                        chunk@.subrange(start as int, end - 1),
                    ).status is Open,
                    Lex::Bad => false,
                }
            },
            Err(UnnestError::InvalidSyntax) => {
                let rest = chunk@.skip(start as int);
                &&& scan(phase, rest).status is Bad
                &&& wrote(*old(into), *final(into), scan(phase, rest).out)
            },
            Err(UnnestError::Io(_)) => !old(into).reliable(),
            Err(UnnestError::UnexpectedEndOfInput) => false,
        },
{
    let len = chunk.len();
    let mut i = start;
    let mut at = phase;
    proof {
        assert(chunk@.subrange(start as int, start as int) =~= Seq::<u8>::empty());
        lemma_wrote_nothing(*into);
    }
    while i < len
        invariant
            len == chunk@.len(),
            start <= i <= len,
            scan(phase, chunk@.subrange(start as int, i as int)).status == Lex::Open(at),
            wrote(*old(into), *into, scan(phase, chunk@.subrange(start as int, i as int)).out),
        decreases len - i,
    {
        if let Escape::Plain = at {
            let end = plain_run(chunk, i);
            if end > i {
                let run = slice_subrange(chunk, i, end);
                let ghost entry = *into;
                let ghost before = chunk@.subrange(start as int, i as int);
                put(into, run)?;
                proof {
                    lemma_scan_plain(run@);
                    lemma_scan_split(phase, before, run@);
                    assert(before + run@ =~= chunk@.subrange(start as int, end as int));
                    lemma_wrote_both(*old(into), entry, *into, scan(phase, before).out, run@);
                }
                i = end;
            }
        }
        if i < len {
            let ghost entry = *into;
            let ghost before = chunk@.subrange(start as int, i as int);
            let ghost upto = chunk@.subrange(start as int, i + 1);
            proof {
                assert(upto.drop_last() =~= before);
                assert(upto.last() == chunk@[i as int]);
                assert(chunk@.subrange(start as int, i + 1 - 1) =~= before);
            }
            match string_byte(at, chunk[i], into) {
                Ok(Lex::Open(next)) => {
                    proof {
                        let bytes = scan_byte(at, chunk@[i as int])->Copy_0;
                        lemma_wrote_both(*old(into), entry, *into, scan(phase, before).out, bytes);
                    }
                    at = next;
                    i = i + 1;
                },
                Ok(status) => {
                    proof {
                        lemma_wrote_both(
                            *old(into),
                            entry,
                            *into,
                            scan(phase, before).out,
                            seq![QUOTE],
                        );
                        assert(scan(phase, before).out.push(QUOTE) =~= scan(phase, before).out
                            + seq![QUOTE]);
                    }
                    return Ok((i + 1, status));
                },
                Err(e) => {
                    proof {
                        if e is InvalidSyntax {
                            lemma_scan_stuck(phase, upto, chunk@.skip(i + 1));
                            assert(upto + chunk@.skip(i + 1) =~= chunk@.skip(start as int));
                        }
                    }
                    return Err(e);
                },
            }
        }
    }
    Ok((i, Lex::Open(at)))
}

} // verus!
