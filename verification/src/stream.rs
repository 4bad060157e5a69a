//! The engine behind a source: one round of a run that streams.

use vstd::prelude::*;
use crate::engine::Unnester;
use crate::error::UnnestError;
use crate::sink::{Sinker, wrote};
use crate::source::Source;

verus! {

impl Unnester {
    /// One round of a run that streams: reads once from the source and
    /// takes what was read, or takes the end of the input if the source has
    /// nothing more. Gives back whether the input has ended.
    ///
    /// A run calls this until it gives `true` or fails. After each round
    /// that gives `false` the engine has taken every byte that the reader
    /// has delivered, as the machine does.
    pub fn pull<R: std::io::Read, S: Sinker>(&mut self, source: &mut Source<R>, to: &mut S) -> (r:
        Result<bool, UnnestError>)
        requires
            old(self).wf(),
            old(source).wf(),
        ensures
            final(self).wf(),
            final(source).wf(),
            old(source).delivered().is_prefix_of(final(source).delivered()),
            match r {
                Ok(false) => {
                    let fresh = final(source).delivered().skip(old(source).consumed() as int);
                    let ran = old(self)@.run(fresh);
                    &&& fresh.len() > 0
                    &&& final(source).consumed() == final(source).delivered().len()
                    &&& ran.ok
                    &&& final(self)@ == ran.next
                    &&& wrote(*old(to), *final(to), ran.out)
                },
                Ok(true) => {
                    let end = old(self)@.finish();
                    &&& old(source).unread().len() == 0
                    &&& final(source).delivered() == old(source).delivered()
                    &&& end.complete
                    &&& final(self)@ == end.next
                    &&& wrote(*old(to), *final(to), end.out)
                },
                Err(UnnestError::InvalidSyntax) => {
                    let fresh = final(source).delivered().skip(old(source).consumed() as int);
                    let ran = old(self)@.run(fresh);
                    &&& !ran.ok
                    &&& wrote(*old(to), *final(to), ran.out)
                },
                Err(UnnestError::UnexpectedEndOfInput) => {
                    let end = old(self)@.finish();
                    &&& old(source).unread().len() == 0
                    &&& final(source).delivered() == old(source).delivered()
                    &&& !end.complete
                    &&& wrote(*old(to), *final(to), end.out)
                },
                Err(UnnestError::Io(_)) => true,
            },
    {
        match source.fill() {
            Ok(()) => {
                self.feed(source.buf(), to)?;
                source.all_useless();
                Ok(false)
            },
            Err(UnnestError::UnexpectedEndOfInput) => {
                self.finish(to)?;
                Ok(true)
            },
            Err(e) => Err(e),
        }
    }
}

} // verus!
