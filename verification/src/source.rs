//! A buffer in front of a reader.
//!
//! [`Source`] reads ahead in large pieces and hands the bytes out one by one
//! or as a slice. What the reader has delivered and how much of it has been
//! consumed are tracked, so that every operation can say which bytes it
//! gave out.

use vstd::prelude::*;
use crate::error::UnnestError;

verus! {

/// How many bytes the buffer holds.
pub const CAPACITY: usize = 16384;

/// A reader behind a buffer of [`CAPACITY`] bytes.
pub struct Source<R> {
    inner: R,
    buf: Vec<u8>,
    len: usize,
    pos: usize,
    delivered: Ghost<Seq<u8>>,
}

/// Calls `iowrap::ReadMany::read_many` on the part of `buf` that starts at
/// `from`. The reader is handed that part only, so the bytes before it and
/// the length of `buf` stay as they were; what the part then holds, and the
/// count that comes back, are the reader's business and nothing is claimed
/// of them.
#[verifier::external_body]
fn read_many<R: std::io::Read>(inner: &mut R, buf: &mut Vec<u8>, from: usize) -> (found: Result<
    usize,
    std::io::Error,
>)
    requires
        from <= old(buf)@.len(),
    ensures
        final(buf)@.len() == old(buf)@.len(),
        final(buf)@.subrange(0, from as int) == old(buf)@.subrange(0, from as int),
{
    iowrap::ReadMany::read_many(inner, &mut buf[from..])
}

/// Decides what a read has brought, from what the reader gave back.
///
/// `held` bytes were unread before the read, and the read had `free` bytes
/// of room. A failure is handed on. Of the bytes that the reader says it
/// has read, no more than there was room for are taken in; if none are and
/// none were unread, the input has ended.
pub fn accept_read(held: usize, free: usize, found: Result<usize, std::io::Error>) -> (r: Result<
    usize,
    UnnestError,
>)
    ensures
        match found {
            Err(e) => r == Err::<usize, UnnestError>(UnnestError::Io(e)),
            Ok(count) => {
                let brought = if count > free {
                    free
                } else {
                    count
                };
                if brought == 0 && held == 0 {
                    r == Err::<usize, UnnestError>(UnnestError::UnexpectedEndOfInput)
                } else {
                    r == Ok::<usize, UnnestError>(brought)
                }
            },
        },
{
    match found {
        Err(e) => Err(UnnestError::Io(e)),
        Ok(count) => {
            let brought = if count > free {
                free
            } else {
                count
            };
            if brought == 0 && held == 0 {
                Err(UnnestError::UnexpectedEndOfInput)
            } else {
                Ok(brought)
            }
        },
    }
}

impl<R> Source<R> {
    /// The buffer is in order: the unread region lies inside it and holds
    /// the last bytes that were delivered.
    pub closed spec fn wf(&self) -> bool {
        &&& self.settled()
        &&& self.buf@.subrange(self.pos as int, self.len as int) == self.unread()
    }

    spec fn settled(&self) -> bool {
        &&& self.buf@.len() == CAPACITY
        &&& self.pos <= self.len <= CAPACITY
        &&& self.len - self.pos <= self.delivered@.len()
    }

    /// Every byte the reader has handed over so far, in order.
    pub closed spec fn delivered(&self) -> Seq<u8> {
        self.delivered@
    }

    /// How many of the delivered bytes have been consumed.
    pub closed spec fn consumed(&self) -> nat {
        (self.delivered@.len() - (self.len - self.pos)) as nat
    }

    /// The bytes that were delivered and not yet consumed.
    pub open spec fn unread(&self) -> Seq<u8> {
        self.delivered().skip(self.consumed() as int)
    }

    /// A source that has read nothing yet.
    pub fn new(inner: R) -> (source: Self)
        ensures
            source.wf(),
            source.delivered() == Seq::<u8>::empty(),
            source.consumed() == 0,
    {
        let source = Source { inner, buf: vec![0u8; CAPACITY], len: 0, pos: 0, delivered: Ghost(Seq::empty()) };
        assert(source.buf@.subrange(0, 0) =~= source.unread());
        source
    }

    /// The unread bytes.
    #[inline]
    pub fn buf(&self) -> (unread: &[u8])
        requires
            self.wf(),
        ensures
            unread@ == self.unread(),
            unread@.len() <= CAPACITY,
    {
        vstd::slice::slice_subrange(self.buf.as_slice(), self.pos, self.len)
    }

    /// Marks the first `amt` unread bytes as consumed.
    #[inline]
    pub fn consume(&mut self, amt: usize)
        requires
            old(self).wf(),
            amt <= old(self).unread().len(),
        ensures
            final(self).wf(),
            final(self).delivered() == old(self).delivered(),
            final(self).consumed() == old(self).consumed() + amt,
    {
        self.pos = self.pos + amt;
        proof {
            let held = old(self).buf@.subrange(old(self).pos as int, old(self).len as int);
            assert forall|i: int| 0 <= i < self.len - self.pos implies self.buf@[self.pos + i]
                == self.unread()[i] by {
                assert(held[amt + i] == old(self).unread()[amt + i]);
            }
            assert(self.buf@.subrange(self.pos as int, self.len as int) =~= self.unread());
        }
    }

    /// Marks every unread byte as consumed.
    #[inline]
    pub fn all_useless(&mut self)
        requires
            old(self).wf(),
        ensures
            final(self).wf(),
            final(self).delivered() == old(self).delivered(),
            final(self).consumed() == old(self).delivered().len(),
    {
        self.pos = 0;
        self.len = 0;
        assert(self.buf@.subrange(0, 0) =~= self.unread());
    }
}

impl<R: std::io::Read> Source<R> {
    /// Reads as much as the buffer has room for.
    ///
    /// If nothing is left unread, the buffer is first emptied. The read
    /// does not stop at the reader's first short answer. It fails with
    /// `UnexpectedEndOfInput` only when nothing is left unread and the
    /// reader has nothing more; a failure of the reader is handed on.
    pub fn fill(&mut self) -> (r: Result<(), UnnestError>)
        requires
            old(self).wf(),
        ensures
            final(self).wf(),
            final(self).consumed() == old(self).consumed(),
            match r {
                Ok(()) => {
                    &&& final(self).unread().len() > 0
                    &&& old(self).delivered().is_prefix_of(final(self).delivered())
                },
                Err(UnnestError::UnexpectedEndOfInput) => {
                    &&& old(self).unread().len() == 0
                    &&& final(self).delivered() == old(self).delivered()
                },
                Err(UnnestError::Io(_)) => final(self).delivered() == old(self).delivered(),
                Err(UnnestError::InvalidSyntax) => false,
            },
    {
        if self.pos == self.len {
            self.pos = 0;
            self.len = 0;
            assert(self.buf@.subrange(0, 0) =~= self.unread());
        }
        let ghost before = self.buf@;
        let found = read_many(&mut self.inner, &mut self.buf, self.len);
        proof {
            let len = self.len as int;
            assert forall|i: int| self.pos <= i < len implies self.buf@[i] == before[i] by {
                assert(self.buf@.subrange(0, len)[i] == before.subrange(0, len)[i]);
            }
            assert(self.buf@.subrange(self.pos as int, len) =~= before.subrange(
                self.pos as int,
                len,
            ));
        }
        let brought = accept_read(self.len - self.pos, CAPACITY - self.len, found)?;
        proof {
            let fresh = self.buf@.subrange(self.len as int, self.len + brought);
            self.delivered@ = self.delivered@ + fresh;
        }
        self.len = self.len + brought;
        assert(self.buf@.subrange(self.pos as int, self.len as int) =~= self.unread());
        Ok(())
    }

    /// Takes the next byte, reading more if none is unread.
    #[inline]
    pub fn next(&mut self) -> (r: Result<u8, UnnestError>)
        requires
            old(self).wf(),
        ensures
            final(self).wf(),
            old(self).delivered().is_prefix_of(final(self).delivered()),
            old(self).unread().len() > 0 ==> r is Ok && final(self).delivered() == old(
                self,
            ).delivered(),
            match r {
                Ok(byte) => {
                    &&& final(self).consumed() == old(self).consumed() + 1
                    &&& old(self).consumed() < final(self).delivered().len()
                    &&& byte == final(self).delivered()[old(self).consumed() as int]
                },
                Err(e) => {
                    &&& final(self).consumed() == old(self).consumed()
                    &&& final(self).delivered() == old(self).delivered()
                    &&& !(e is InvalidSyntax)
                },
            },
    {
        if self.pos >= self.len {
            self.fill()?;
        }
        assert(self.buf@.subrange(self.pos as int, self.len as int)[0] == self.unread()[0]);
        let byte = self.buf[self.pos];
        self.consume(1);
        Ok(byte)
    }

    /// Looks at the next byte without taking it, reading more if none is
    /// unread.
    #[inline]
    pub fn peek(&mut self) -> (r: Result<u8, UnnestError>)
        requires
            old(self).wf(),
        ensures
            final(self).wf(),
            final(self).consumed() == old(self).consumed(),
            old(self).delivered().is_prefix_of(final(self).delivered()),
            old(self).unread().len() > 0 ==> r is Ok && final(self).delivered() == old(
                self,
            ).delivered(),
            match r {
                Ok(byte) => final(self).unread().len() > 0 && byte == final(self).unread()[0],
                Err(e) => final(self).delivered() == old(self).delivered() && !(e
                    is InvalidSyntax),
            },
    {
        if self.pos >= self.len {
            self.fill()?;
        }
        assert(self.buf@.subrange(self.pos as int, self.len as int)[0] == self.unread()[0]);
        Ok(self.buf[self.pos])
    }
}

} // verus!
