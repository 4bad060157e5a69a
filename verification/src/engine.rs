//! The engine: the machine, made executable.
//!
//! [`Unnester`] holds the state between two pieces of input. It takes
//! strings, primitives and whitespace in bulk and everything else byte by
//! byte, and it is proved to write what the machine writes.

use vstd::prelude::*;
use vstd::slice::slice_subrange;
use crate::bytes::{
    CLOSE_BRACE,
    CLOSE_BRACKET,
    COLON,
    COMMA,
    DIGIT_ZERO,
    OPEN_BRACE,
    OPEN_BRACKET,
    QUOTE,
    ends_primitive,
    is_whitespace,
    primitive_end,
    whitespace,
};
use crate::decimal::{decimal, increment};
use crate::error::UnnestError;
use crate::lemmas::{
    key_closed,
    key_open,
    lemma_run_key,
    lemma_run_key_closed,
    lemma_run_primitive,
    lemma_run_split,
    lemma_run_string,
    lemma_run_string_closed,
    lemma_run_whitespace,
};
use crate::machine::{Container, Escape, Lex, Machine, Mode, closer, only_if, scan, unnest};
use crate::sink::{
    Sinker,
    close_item,
    lemma_wrote_both,
    lemma_wrote_nothing,
    open_item,
    put,
    wrote,
};
use crate::strings::{drop_whitespace, parse_string};
use crate::style::{HeaderStyle, item_prefix, item_suffix, segments};

verus! {

/// Where the engine stands in the document: the open containers, the path,
/// and the two settings of the run.
struct Loc {
    target: usize,
    frames: Vec<Container>,
    path: Vec<Vec<u8>>,
    header_style: HeaderStyle,
}

impl Loc {
    /// How deep the value at hand lies, counted from the target.
    spec fn depth(&self) -> int {
        self.frames@.len() - self.target
    }

    fn at_target(&self) -> (r: bool)
        ensures
            r == (self.depth() == 0),
    {
        self.frames.len() == self.target
    }

    fn collecting_keys(&self) -> (r: bool)
        ensures
            r == (self.depth() <= 0),
    {
        self.frames.len() <= self.target
    }

    fn producing_regular_output(&self) -> (r: bool)
        ensures
            r == (self.depth() > 0),
    {
        self.frames.len() > self.target
    }

    fn shallower_than_target(&self) -> (r: bool)
        ensures
            r == (self.depth() < 0),
    {
        self.frames.len() < self.target
    }

    fn compute_header(&self) -> (r: bool)
        ensures
            r == self.header_style.annotates(),
    {
        match self.header_style {
            HeaderStyle::Bare => false,
            HeaderStyle::PathArray => true,
        }
    }

    /// Announces a fragment under the path at hand, where paths are kept.
    fn write_prefix<S: Sinker>(&self, into: &mut S) -> (r: Result<(), UnnestError>)
        ensures
            match r {
                Ok(()) => wrote(
                    *old(into),
                    *final(into),
                    item_prefix(segments(self.path@), self.header_style),
                ),
                Err(UnnestError::Io(_)) => !old(into).reliable(),
                Err(_) => false,
            },
    {
        if self.compute_header() {
            open_item(into, self.path.as_slice(), self.header_style)
        } else {
            proof {
                lemma_wrote_nothing(*into);
            }
            Ok(())
        }
    }

    /// Closes the fragment at hand.
    fn write_suffix<S: Sinker>(&self, into: &mut S) -> (r: Result<(), UnnestError>)
        ensures
            match r {
                Ok(()) => wrote(*old(into), *final(into), item_suffix(self.header_style)),
                Err(UnnestError::Io(_)) => !old(into).reliable(),
                Err(_) => false,
            },
    {
        close_item(into, self.header_style)
    }
}

/// The position that the engine keeps at the end of the path while it
/// stands between two elements of an array whose positions are kept.
spec fn pending(m: Machine) -> Seq<Seq<u8>> {
    if m.tracking() && m.frames.len() > 0 && m.frames.last().kind == Container::Array && (m.mode
        is Element || m.mode is Delimiter) {
        seq![decimal(m.frames.last().index)]
    } else {
        Seq::empty()
    }
}

/// The engine between two pieces of input.
pub struct Unnester {
    loc: Loc,
    mode: Mode,
    key: Vec<u8>,
    model: Ghost<Machine>,
}

impl View for Unnester {
    type V = Machine;

    /// The state of the machine that the engine stands for.
    closed spec fn view(&self) -> Machine {
        self.model@
    }
}

impl Unnester {
    /// The engine's fields hold what `m` holds, with `path` as the path.
    spec fn holds(&self, m: Machine, path: Seq<Seq<u8>>) -> bool {
        &&& m.target == self.loc.target
        &&& m.style == self.loc.header_style
        &&& self.loc.frames@.len() == m.frames.len()
        &&& forall|i: int|
            0 <= i < m.frames.len() ==> self.loc.frames@[i] == (#[trigger] m.frames[i]).kind
        &&& self.key@ == m.key
        &&& segments(self.loc.path@) == path
    }

    /// The engine stands for a state that the initial state leads to.
    pub closed spec fn wf(&self) -> bool {
        &&& self@.inv()
        &&& self.mode == self@.mode
        &&& self.holds(self@, self@.path + pending(self@))
    }

    /// An engine before the first byte.
    ///
    /// A target that a signed machine word cannot hold is refused.
    pub fn new(target: usize, header_style: HeaderStyle) -> (r: Result<Unnester, UnnestError>)
        ensures
            match r {
                Ok(engine) => {
                    &&& target <= isize::MAX
                    &&& engine.wf()
                    &&& engine@ == Machine::initial(target as nat, header_style)
                },
                Err(UnnestError::InvalidSyntax) => target > isize::MAX,
                Err(_) => false,
            },
    {
        if target > isize::MAX as usize {
            return Err(UnnestError::InvalidSyntax);
        }
        let engine = Unnester {
            loc: Loc { target, frames: Vec::new(), path: Vec::new(), header_style },
            mode: Mode::Value,
            key: Vec::new(),
            model: Ghost(Machine::initial(target as nat, header_style)),
        };
        assert(segments(engine.loc.path@) =~= engine@.path + pending(engine@));
        Ok(engine)
    }

    /// The state's part of a value's end: the path loses the segment that
    /// led to the value, and a delimiter is expected next. `done` is the
    /// state in which the value was complete.
    fn settle(&mut self, Ghost(done): Ghost<Machine>)
        requires
            old(self).holds(done, done.path),
            done.indexed(),
            done.path.len() == done.with_mode(Mode::Value).open_segments(),
        ensures
            final(self).wf(),
            final(self)@ == done.end_value(true).next,
            final(self)@ == done.end_value(false).next,
    {
        let n = self.loc.frames.len();
        let ghost after = done.end_value(true).next;
        if n == 0 {
            self.mode = Mode::Value;
            proof {
                self.model@ = after;
                assert(after.path + pending(after) =~= done.path);
            }
        } else {
            let top = self.loc.frames[n - 1];
            assert(top == done.frames[n - 1].kind);
            if self.loc.compute_header() && self.loc.collecting_keys() {
                match top {
                    Container::Object => {
                        let ghost before = self.loc.path@;
                        self.loc.path.pop();
                        assert(segments(self.loc.path@) =~= segments(before).drop_last());
                    },
                    Container::Array => {
                        assert(done.path.last() == decimal(done.frames[n - 1].index));
                    },
                }
            }
            self.mode = Mode::Delimiter;
            proof {
                self.model@ = after;
                assert(segments(self.loc.path@) =~= after.path + pending(after));
            }
        }
    }

    /// A string or a primitive is complete.
    fn end_leaf<S: Sinker>(&mut self, to: &mut S) -> (r: Result<(), UnnestError>)
        requires
            old(self).wf(),
            old(self)@.mode is InString || old(self)@.mode is InPrimitive,
        ensures
            final(self).wf(),
            match r {
                Ok(()) => {
                    &&& final(self)@ == old(self)@.end_value(true).next
                    &&& wrote(*old(to), *final(to), old(self)@.end_value(true).out)
                },
                Err(UnnestError::Io(_)) => !old(to).reliable(),
                Err(_) => false,
            },
    {
        if self.loc.collecting_keys() {
            self.loc.write_suffix(to)?;
        } else {
            proof {
                lemma_wrote_nothing(*to);
            }
        }
        assert(self@.path + pending(self@) =~= self@.path);
        self.settle(Ghost(self@));
        Ok(())
    }

    /// The closing bracket of the container at hand.
    fn close<S: Sinker>(&mut self, to: &mut S) -> (r: Result<(), UnnestError>)
        requires
            old(self).wf(),
            old(self)@.frames.len() > 0,
            old(self)@.mode is Element || old(self)@.mode is Key || old(self)@.mode is Delimiter,
        ensures
            final(self).wf(),
            match r {
                Ok(()) => {
                    &&& final(self)@ == old(self)@.close().next
                    &&& wrote(*old(to), *final(to), old(self)@.close().out)
                },
                Err(UnnestError::Io(_)) => !old(to).reliable(),
                Err(_) => false,
            },
    {
        let n = self.loc.frames.len();
        let kind = self.loc.frames[n - 1];
        let ghost m = self@;
        let ghost popped = Machine { frames: m.frames.drop_last(), ..m };
        assert(kind == m.frames[n - 1].kind);
        let ghost entry = *to;
        if self.loc.producing_regular_output() {
            let bracket: [u8; 1] = [
                match kind {
                    Container::Object => CLOSE_BRACE,
                    Container::Array => CLOSE_BRACKET,
                },
            ];
            assert(bracket@ =~= seq![closer(kind)]);
            put(to, bracket.as_slice())?;
        } else {
            proof {
                lemma_wrote_nothing(*to);
            }
        }
        let ghost between = *to;
        if n - 1 == self.loc.target {
            self.loc.write_suffix(to)?;
        } else {
            proof {
                lemma_wrote_nothing(*to);
            }
        }
        proof {
            lemma_wrote_both(
                entry,
                between,
                *to,
                only_if(m.producing(), seq![closer(kind)]),
                popped.end_value(false).out,
            );
        }
        if self.loc.compute_header() && self.loc.collecting_keys() {
            match kind {
                Container::Array => {
                    let ghost before = self.loc.path@;
                    self.loc.path.pop();
                    assert(segments(self.loc.path@) =~= segments(before).drop_last());
                    assert(segments(before).drop_last() =~= m.path);
                },
                Container::Object => {
                    assert(m.path + pending(m) =~= m.path);
                },
            }
        } else {
            assert(m.path + pending(m) =~= m.path);
        }
        self.loc.frames.pop();
        self.settle(Ghost(popped));
        Ok(())
    }

    /// The first byte of a value: a bracket opens a container, a quote a
    /// string, anything else a primitive.
    fn handle_one<S: Sinker>(&mut self, b: u8, to: &mut S) -> (r: Result<(), UnnestError>)
        requires
            old(self).wf(),
            old(self)@.mode is Value || old(self)@.mode is Element,
            old(self)@.mode is Element ==> b != CLOSE_BRACKET,
            !is_whitespace(b),
        ensures
            final(self).wf(),
            match r {
                Ok(()) => {
                    &&& old(self)@.structural(b).ok
                    &&& final(self)@ == old(self)@.structural(b).next
                    &&& wrote(*old(to), *final(to), old(self)@.structural(b).out)
                },
                Err(UnnestError::Io(_)) => !old(to).reliable(),
                Err(_) => false,
            },
    {
        proof {
            reveal(Machine::step);
            reveal(Machine::structural);
        }
        let ghost m = self@;
        let ghost at = if m.mode is Element {
            m.enter_element()
        } else {
            m
        };
        let ghost took = at.begin_value(b);
        assert(segments(self.loc.path@) =~= at.path);
        let ghost entry = *to;
        if b == OPEN_BRACE || b == OPEN_BRACKET {
            if self.loc.at_target() {
                self.loc.write_prefix(to)?;
            } else {
                proof {
                    lemma_wrote_nothing(*to);
                }
            }
            let ghost between = *to;
            if !self.loc.shallower_than_target() {
                let bracket: [u8; 1] = [b];
                assert(bracket@ =~= seq![b]);
                put(to, bracket.as_slice())?;
            } else {
                proof {
                    lemma_wrote_nothing(*to);
                }
            }
            proof {
                lemma_wrote_both(
                    entry,
                    between,
                    *to,
                    only_if(at.depth() == 0, item_prefix(at.path, at.style)),
                    only_if(at.depth() >= 0, seq![b]),
                );
            }
            if b == OPEN_BRACE {
                self.loc.frames.push(Container::Object);
                self.mode = Mode::Key;
            } else {
                self.loc.frames.push(Container::Array);
                if self.loc.compute_header() && self.loc.collecting_keys() {
                    let ghost before = self.loc.path@;
                    let mut zero: Vec<u8> = Vec::new();
                    zero.push(DIGIT_ZERO);
                    assert(zero@ =~= decimal(0));
                    self.loc.path.push(zero);
                    assert(segments(self.loc.path@) =~= segments(before).push(decimal(0)));
                }
                self.mode = Mode::Element;
            }
            proof {
                self.model@ = took.next;
                assert(segments(self.loc.path@) =~= took.next.path + pending(took.next));
            }
        } else {
            if self.loc.collecting_keys() {
                self.loc.write_prefix(to)?;
            } else {
                proof {
                    lemma_wrote_nothing(*to);
                }
            }
            let ghost between = *to;
            let first: [u8; 1] = [b];
            assert(first@ =~= seq![b]);
            put(to, first.as_slice())?;
            proof {
                lemma_wrote_both(
                    entry,
                    between,
                    *to,
                    only_if(at.collecting(), item_prefix(at.path, at.style)),
                    seq![b],
                );
            }
            self.mode = if b == QUOTE {
                Mode::InString(Escape::Plain)
            } else {
                Mode::InPrimitive
            };
            proof {
                self.model@ = took.next;
                assert(segments(self.loc.path@) =~= took.next.path + pending(took.next));
            }
        }
        Ok(())
    }

    /// One byte between the tokens of an object: a key's opening quote,
    /// the colon, a comma, or the closing brace.
    fn handle_object<S: Sinker>(&mut self, b: u8, to: &mut S) -> (r: Result<(), UnnestError>)
        requires
            old(self).wf(),
            old(self)@.mode is Key || old(self)@.mode is Colon || (old(self)@.mode is Delimiter
                && old(self)@.frames.last().kind == Container::Object),
            !is_whitespace(b),
        ensures
            final(self).wf(),
            match r {
                Ok(()) => {
                    &&& old(self)@.structural(b).ok
                    &&& final(self)@ == old(self)@.structural(b).next
                    &&& wrote(*old(to), *final(to), old(self)@.structural(b).out)
                },
                Err(UnnestError::InvalidSyntax) => {
                    &&& !old(self)@.structural(b).ok
                    &&& *final(to) == *old(to)
                },
                Err(UnnestError::Io(_)) => !old(to).reliable(),
                Err(UnnestError::UnexpectedEndOfInput) => false,
            },
    {
        proof {
            reveal(Machine::step);
            reveal(Machine::structural);
        }
        let ghost m = self@;
        match self.mode {
            Mode::Key => {
                if b == COMMA {
                    proof {
                        lemma_wrote_nothing(*to);
                    }
                    Ok(())
                } else if b == QUOTE {
                    if self.loc.producing_regular_output() {
                        let quote: [u8; 1] = [QUOTE];
                        assert(quote@ =~= seq![QUOTE]);
                        put(to, quote.as_slice())?;
                    } else {
                        proof {
                            lemma_wrote_nothing(*to);
                        }
                        if self.loc.compute_header() {
                            self.key.clear();
                            self.key.push(QUOTE);
                            assert(self.key@ =~= seq![QUOTE]);
                        }
                    }
                    self.mode = Mode::InKey(Escape::Plain);
                    proof {
                        self.model@ = m.begin_key().next;
                        assert(m.path + pending(m) =~= self@.path + pending(self@));
                    }
                    Ok(())
                } else if b == CLOSE_BRACE {
                    self.close(to)
                } else {
                    Err(UnnestError::InvalidSyntax)
                }
            },
            Mode::Colon => {
                if b == COLON {
                    if self.loc.producing_regular_output() {
                        let colon: [u8; 1] = [COLON];
                        assert(colon@ =~= seq![COLON]);
                        put(to, colon.as_slice())?;
                    } else {
                        proof {
                            lemma_wrote_nothing(*to);
                        }
                    }
                    self.mode = Mode::Value;
                    proof {
                        self.model@ = m.with_mode(Mode::Value);
                        assert(m.path + pending(m) =~= self@.path + pending(self@));
                    }
                    Ok(())
                } else {
                    Err(UnnestError::InvalidSyntax)
                }
            },
            _ => {
                if b == CLOSE_BRACE {
                    self.close(to)
                } else if b == COMMA {
                    if self.loc.producing_regular_output() {
                        let comma: [u8; 1] = [COMMA];
                        assert(comma@ =~= seq![COMMA]);
                        put(to, comma.as_slice())?;
                    } else {
                        proof {
                            lemma_wrote_nothing(*to);
                        }
                    }
                    self.mode = Mode::Key;
                    proof {
                        self.model@ = m.next_member().next;
                        assert(m.path + pending(m) =~= self@.path + pending(self@));
                    }
                    Ok(())
                } else {
                    Err(UnnestError::InvalidSyntax)
                }
            },
        }
    }

    /// One byte between the tokens of an array: the first byte of an
    /// element, a comma, or the closing bracket.
    fn handle_array<S: Sinker>(&mut self, b: u8, to: &mut S) -> (r: Result<(), UnnestError>)
        requires
            old(self).wf(),
            old(self)@.mode is Element || (old(self)@.mode is Delimiter && old(
                self,
            )@.frames.last().kind == Container::Array),
            !is_whitespace(b),
        ensures
            final(self).wf(),
            match r {
                Ok(()) => {
                    &&& old(self)@.structural(b).ok
                    &&& final(self)@ == old(self)@.structural(b).next
                    &&& wrote(*old(to), *final(to), old(self)@.structural(b).out)
                },
                Err(UnnestError::InvalidSyntax) => {
                    &&& !old(self)@.structural(b).ok
                    &&& *final(to) == *old(to)
                },
                Err(UnnestError::Io(_)) => !old(to).reliable(),
                Err(UnnestError::UnexpectedEndOfInput) => false,
            },
    {
        proof {
            reveal(Machine::step);
            reveal(Machine::structural);
        }
        let ghost m = self@;
        if b == CLOSE_BRACKET {
            return self.close(to);
        }
        match self.mode {
            Mode::Element => self.handle_one(b, to),
            _ => {
                if b == COMMA {
                    if self.loc.producing_regular_output() {
                        let comma: [u8; 1] = [COMMA];
                        assert(comma@ =~= seq![COMMA]);
                        put(to, comma.as_slice())?;
                    } else {
                        proof {
                            lemma_wrote_nothing(*to);
                        }
                    }
                    let ghost after = m.next_member().next;
                    if self.loc.compute_header() && self.loc.collecting_keys() {
                        let ghost before = self.loc.path@;
                        assert(segments(before) =~= m.path.push(decimal(m.frames.last().index)));
                        assert(segments(before).last() == before.last()@);
                        let mut position = self.loc.path.pop().unwrap();
                        increment(&mut position, Ghost(m.frames.last().index));
                        self.loc.path.push(position);
                        proof {
                            let bumped = decimal(m.frames.last().index + 1);
                            assert(after.frames.last().index == m.frames.last().index + 1);
                            assert(after.frames.last().kind == Container::Array);
                            assert(after.frames.len() == m.frames.len());
                            assert(pending(after) =~= seq![bumped]);
                            assert(segments(self.loc.path@) =~= segments(before).drop_last().push(
                                bumped,
                            ));
                            assert(segments(before).drop_last() =~= m.path);
                            assert(segments(self.loc.path@) =~= after.path + pending(after));
                        }
                    } else {
                        assert(m.path + pending(m) =~= after.path + pending(after));
                    }
                    self.mode = Mode::Element;
                    proof {
                        self.model@ = after;
                        assert forall|i: int| 0 <= i < after.frames.len() implies self.loc.frames@[i]
                            == (#[trigger] after.frames[i]).kind by {
                            assert(m.frames[i].kind == self.loc.frames@[i]);
                        }
                    }
                    Ok(())
                } else {
                    Err(UnnestError::InvalidSyntax)
                }
            },
        }
    }

    /// One byte between tokens that is not whitespace.
    fn structural<S: Sinker>(&mut self, b: u8, to: &mut S) -> (r: Result<(), UnnestError>)
        requires
            old(self).wf(),
            !is_whitespace(b),
        ensures
            final(self).wf(),
            match r {
                Ok(()) => {
                    &&& old(self)@.structural(b).ok
                    &&& final(self)@ == old(self)@.structural(b).next
                    &&& wrote(*old(to), *final(to), old(self)@.structural(b).out)
                },
                Err(UnnestError::InvalidSyntax) => {
                    &&& !old(self)@.structural(b).ok
                    &&& *final(to) == *old(to)
                },
                Err(UnnestError::Io(_)) => !old(to).reliable(),
                Err(UnnestError::UnexpectedEndOfInput) => false,
            },
    {
        proof {
            reveal(Machine::step);
            reveal(Machine::structural);
        }
        match self.mode {
            Mode::Value => self.handle_one(b, to),
            Mode::Element => self.handle_array(b, to),
            Mode::Key => self.handle_object(b, to),
            Mode::Colon => self.handle_object(b, to),
            Mode::Delimiter => {
                let n = self.loc.frames.len();
                assert(self.loc.frames@[n - 1] == self@.frames[n - 1].kind);
                match self.loc.frames[n - 1] {
                    Container::Object => self.handle_object(b, to),
                    Container::Array => self.handle_array(b, to),
                }
            },
            _ => Err(UnnestError::InvalidSyntax),
        }
    }

    /// The rest of a string that is a value, as far as `chunk` holds it.
    fn take_string<S: Sinker>(&mut self, chunk: &[u8], start: usize, to: &mut S) -> (r: Result<
        usize,
        UnnestError,
    >)
        requires
            old(self).wf(),
            old(self)@.mode is InString,
            start < chunk@.len(),
        ensures
            final(self).wf(),
            advanced(old(self)@, chunk@, start as int, r, final(self)@, *old(to), *final(to)),
    {
        let ghost m = self@;
        let phase = match self.mode {
            Mode::InString(phase) => phase,
            _ => Escape::Plain,
        };
        let ghost entry = *to;
        let (end, status) = match parse_string(chunk, start, phase, to) {
            Ok(found) => found,
            Err(e) => {
                proof {
                    lemma_run_string(m, phase, chunk@.skip(start as int));
                }
                return Err(e);
            },
        };
        let ghost taken = chunk@.subrange(start as int, end as int);
        let ghost between = *to;
        proof {
            lemma_run_string(m, phase, taken);
        }
        match status {
            Lex::Open(next) => {
                self.mode = Mode::InString(next);
                proof {
                    self.model@ = m.with_mode(Mode::InString(next));
                    assert(m.path + pending(m) =~= self@.path + pending(self@));
                }
            },
            _ => {
                proof {
                    assert(taken.drop_last() =~= chunk@.subrange(start as int, end - 1));
                    lemma_run_string_closed(m, phase, taken);
                }
                self.end_leaf(to)?;
                proof {
                    lemma_wrote_both(
                        entry,
                        between,
                        *to,
                        scan(phase, taken).out,
                        m.end_value(true).out,
                    );
                }
            },
        }
        Ok(end)
    }

    /// The rest of a key, as far as `chunk` holds it. Inside a fragment the
    /// key is copied; above it the key goes to the path, or nowhere where
    /// no path is kept.
    fn take_key<S: Sinker>(&mut self, chunk: &[u8], start: usize, to: &mut S) -> (r: Result<
        usize,
        UnnestError,
    >)
        requires
            old(self).wf(),
            old(self)@.mode is InKey,
            start < chunk@.len(),
        ensures
            final(self).wf(),
            advanced(old(self)@, chunk@, start as int, r, final(self)@, *old(to), *final(to)),
    {
        let ghost m = self@;
        let phase = match self.mode {
            Mode::InKey(phase) => phase,
            _ => Escape::Plain,
        };
        proof {
            lemma_run_key(m, phase, chunk@.skip(start as int));
            lemma_wrote_nothing(*to);
            assert(m.path + pending(m) =~= m.path);
        }
        let scanned = if self.loc.producing_regular_output() {
            parse_string(chunk, start, phase, to)
        } else if self.loc.compute_header() {
            let scanned = parse_string(chunk, start, phase, &mut self.key);
            proof {
                self.model@ = Machine { key: self.key@, ..m };
                assert(self@.path + pending(self@) =~= m.path);
            }
            scanned
        } else {
            let mut nowhere = iowrap::Ignore::new();
            parse_string(chunk, start, phase, &mut nowhere)
        };
        let (end, status) = match scanned {
            Ok(found) => found,
            Err(e) => {
                return Err(e);
            },
        };
        let ghost taken = chunk@.subrange(start as int, end as int);
        proof {
            lemma_run_key(m, phase, taken);
        }
        match status {
            Lex::Open(next) => {
                self.mode = Mode::InKey(next);
                proof {
                    self.model@ = key_open(m, next, scan(phase, taken).out);
                    assert(self@.path + pending(self@) =~= m.path);
                }
            },
            _ => {
                proof {
                    assert(taken.drop_last() =~= chunk@.subrange(start as int, end - 1));
                    lemma_run_key_closed(m, phase, taken);
                }
                if !self.loc.producing_regular_output() && self.loc.compute_header() {
                    let ghost before = self.loc.path@;
                    let mut segment: Vec<u8> = Vec::new();
                    std::mem::swap(&mut segment, &mut self.key);
                    self.loc.path.push(segment);
                    assert(segments(self.loc.path@) =~= segments(before).push(
                        m.key + scan(phase, taken).out,
                    ));
                }
                self.mode = Mode::Colon;
                proof {
                    self.model@ = key_closed(m, scan(phase, taken).out);
                    assert(segments(self.loc.path@) =~= self@.path + pending(self@));
                }
            },
        }
        Ok(end)
    }

    /// The rest of a primitive, as far as `chunk` holds it, and the byte
    /// that ends it.
    ///
    /// The primitive is copied up to the first byte that ends one. That
    /// byte completes it and is then taken as what follows a value.
    fn scan_primitive<S: Sinker>(&mut self, chunk: &[u8], start: usize, to: &mut S) -> (r: Result<
        usize,
        UnnestError,
    >)
        requires
            old(self).wf(),
            old(self)@.mode is InPrimitive,
            start < chunk@.len(),
        ensures
            final(self).wf(),
            advanced(old(self)@, chunk@, start as int, r, final(self)@, *old(to), *final(to)),
    {
        proof {
            reveal(Machine::step);
            reveal(Machine::structural);
        }
        let ghost m = self@;
        let len = chunk.len();
        let mut end = start;
        while end < len && !primitive_end(chunk[end])
            invariant
                len == chunk@.len(),
                start <= end <= len,
                forall|i: int| start <= i < end ==> !ends_primitive(#[trigger] chunk@[i]),
            decreases len - end,
        {
            end = end + 1;
        }
        let run = slice_subrange(chunk, start, end);
        let ghost entry = *to;
        proof {
            lemma_run_primitive(m, run@);
        }
        if end > start {
            put(to, run)?;
        } else {
            proof {
                lemma_wrote_nothing(*to);
                assert(run@ =~= Seq::<u8>::empty());
            }
        }
        if end == len {
            return Ok(end);
        }
        let b = chunk[end];
        let ghost copied = *to;
        let ghost taken = chunk@.subrange(start as int, end + 1);
        let ghost ended = m.end_value(true);
        proof {
            assert(taken.drop_last() =~= run@);
            assert(taken.last() == b);
            assert(m.run(taken) == m.run(run@).followed_by(m.step(b)));
            assert(taken + chunk@.skip(end + 1) =~= chunk@.skip(start as int));
            lemma_run_split(m, taken, chunk@.skip(end + 1));
        }
        self.end_leaf(to)?;
        let ghost closed = *to;
        proof {
            lemma_wrote_both(entry, copied, closed, run@, ended.out);
        }
        if whitespace(b) {
            proof {
                assert(run@ + (ended.out + Seq::<u8>::empty()) =~= run@ + ended.out);
            }
        } else {
            match self.structural(b, to) {
                Ok(()) => {
                    proof {
                        let last = ended.next.structural(b);
                        lemma_wrote_both(entry, closed, *to, run@ + ended.out, last.out);
                        assert((run@ + ended.out) + last.out =~= run@ + (ended.out + last.out));
                    }
                },
                Err(e) => {
                    proof {
                        assert(run@ + (ended.out + Seq::<u8>::empty()) =~= run@ + ended.out);
                    }
                    return Err(e);
                },
            }
        }
        Ok(end + 1)
    }

    /// The whitespace at hand and the byte that follows it, between
    /// tokens.
    fn take_token<S: Sinker>(&mut self, chunk: &[u8], start: usize, to: &mut S) -> (r: Result<
        usize,
        UnnestError,
    >)
        requires
            old(self).wf(),
            !(old(self)@.mode is InKey) && !(old(self)@.mode is InString) && !(old(self)@.mode
                is InPrimitive),
            start < chunk@.len(),
        ensures
            final(self).wf(),
            advanced(old(self)@, chunk@, start as int, r, final(self)@, *old(to), *final(to)),
    {
        proof {
            reveal(Machine::step);
            reveal(Machine::structural);
        }
        let ghost m = self@;
        let at = drop_whitespace(chunk, start);
        let ghost blank = chunk@.subrange(start as int, at as int);
        proof {
            lemma_run_whitespace(m, blank);
            lemma_wrote_nothing(*to);
        }
        if at == chunk.len() {
            return Ok(at);
        }
        let b = chunk[at];
        let ghost taken = chunk@.subrange(start as int, at + 1);
        proof {
            assert(taken.drop_last() =~= blank);
            assert(taken.last() == b);
            assert(m.run(taken) == m.stay().followed_by(m.step(b)));
            assert(Seq::<u8>::empty() + m.structural(b).out =~= m.structural(b).out);
            assert(taken + chunk@.skip(at + 1) =~= chunk@.skip(start as int));
            lemma_run_split(m, taken, chunk@.skip(at + 1));
        }
        self.structural(b, to)?;
        Ok(at + 1)
    }

    /// Takes the next piece of input and hands each fragment that it
    /// completes to the sink.
    ///
    /// The engine does to `chunk` what the machine does, byte by byte:
    /// it ends in the state that the machine ends in, and a sink that keeps
    /// a transcript has grown by what the machine writes. A byte that the
    /// grammar refuses is `InvalidSyntax`; what was written before it stays
    /// written, and nothing is written after it. Only a sink that fails
    /// makes the engine fail otherwise.
    pub fn feed<S: Sinker>(&mut self, chunk: &[u8], to: &mut S) -> (r: Result<(), UnnestError>)
        requires
            old(self).wf(),
        ensures
            final(self).wf(),
            match r {
                Ok(()) => {
                    let ran = old(self)@.run(chunk@);
                    &&& ran.ok
                    &&& final(self)@ == ran.next
                    &&& wrote(*old(to), *final(to), ran.out)
                },
                Err(UnnestError::InvalidSyntax) => {
                    let ran = old(self)@.run(chunk@);
                    &&& !ran.ok
                    &&& wrote(*old(to), *final(to), ran.out)
                },
                Err(UnnestError::Io(_)) => !old(to).reliable(),
                Err(UnnestError::UnexpectedEndOfInput) => false,
            },
    {
        let ghost first = self@;
        let len = chunk.len();
        let mut i: usize = 0;
        proof {
            lemma_wrote_nothing(*to);
            assert(chunk@.subrange(0, 0) =~= Seq::<u8>::empty());
        }
        while i < len
            invariant
                len == chunk@.len(),
                i <= len,
                self.wf(),
                first == old(self)@,
                reached(first, chunk@, i as int, self@, *old(to), *to),
            decreases len - i,
        {
            let ghost here = self@;
            let ghost entry = *to;
            let taken = match self.mode {
                Mode::InString(_) => self.take_string(chunk, i, to),
                Mode::InKey(_) => self.take_key(chunk, i, to),
                Mode::InPrimitive => self.scan_primitive(chunk, i, to),
                _ => self.take_token(chunk, i, to),
            };
            proof {
                lemma_advance(first, chunk@, i as int, taken, here, self@, *old(to), entry, *to);
            }
            match taken {
                Ok(end) => {
                    i = end;
                },
                Err(e) => {
                    return Err(e);
                },
            }
        }
        assert(chunk@.subrange(0, len as int) =~= chunk@);
        Ok(())
    }

    /// Takes the end of the input.
    ///
    /// A primitive at hand is completed. The input is complete between
    /// two values at the top level; anywhere else it ends too early, which
    /// is `UnexpectedEndOfInput`.
    pub fn finish<S: Sinker>(&mut self, to: &mut S) -> (r: Result<(), UnnestError>)
        requires
            old(self).wf(),
        ensures
            final(self).wf(),
            match r {
                Ok(()) => {
                    &&& old(self)@.finish().complete
                    &&& final(self)@ == old(self)@.finish().next
                    &&& wrote(*old(to), *final(to), old(self)@.finish().out)
                },
                Err(UnnestError::UnexpectedEndOfInput) => {
                    &&& !old(self)@.finish().complete
                    &&& final(self)@ == old(self)@.finish().next
                    &&& wrote(*old(to), *final(to), old(self)@.finish().out)
                },
                Err(UnnestError::Io(_)) => !old(to).reliable(),
                Err(UnnestError::InvalidSyntax) => false,
            },
    {
        proof {
            lemma_wrote_nothing(*to);
        }
        let top_level = self.loc.frames.len() == 0;
        match self.mode {
            Mode::Value => {},
            Mode::InPrimitive => {
                self.end_leaf(to)?;
            },
            _ => {
                return Err(UnnestError::UnexpectedEndOfInput);
            },
        }
        if top_level {
            Ok(())
        } else {
            Err(UnnestError::UnexpectedEndOfInput)
        }
    }
}

/// What a call that takes input from `chunk`, starting at `from`, has to
/// have done, given what it gave back: the engine went from `before` to
/// `after`, and the sink from `sink` to `sunk`.
///
/// A call that gives back a place has taken the bytes up to that place as
/// the machine does. One that fails with `InvalidSyntax` has written what
/// the machine writes before it refuses a byte. Any other failure is the
/// sink's.
spec fn advanced<S: Sinker>(
    before: Machine,
    chunk: Seq<u8>,
    from: int,
    r: Result<usize, UnnestError>,
    after: Machine,
    sink: S,
    sunk: S,
) -> bool {
    match r {
        Ok(end) => {
            let ran = before.run(chunk.subrange(from, end as int));
            &&& from < end <= chunk.len()
            &&& ran.ok
            &&& ran.next == after
            &&& wrote(sink, sunk, ran.out)
        },
        Err(UnnestError::InvalidSyntax) => {
            let ran = before.run(chunk.skip(from));
            &&& !ran.ok
            &&& wrote(sink, sunk, ran.out)
        },
        Err(UnnestError::Io(_)) => !sink.reliable(),
        Err(UnnestError::UnexpectedEndOfInput) => false,
    }
}

/// The engine has taken the first `upto` bytes of `chunk` as the machine
/// does: from `first` it has come to `now`, and the sink from `sink` to
/// `sunk`.
spec fn reached<S: Sinker>(
    first: Machine,
    chunk: Seq<u8>,
    upto: int,
    now: Machine,
    sink: S,
    sunk: S,
) -> bool {
    let ran = first.run(chunk.subrange(0, upto));
    &&& ran.ok
    &&& ran.next == now
    &&& wrote(sink, sunk, ran.out)
}

/// One more call on the same piece of input: where the engine had taken
/// the bytes before `from`, it has now taken those that the call took too,
/// or the run over the whole piece is refused where the call was.
proof fn lemma_advance<S: Sinker>(
    first: Machine,
    chunk: Seq<u8>,
    from: int,
    r: Result<usize, UnnestError>,
    here: Machine,
    after: Machine,
    sink: S,
    between: S,
    sunk: S,
)
    requires
        0 <= from <= chunk.len(),
        reached(first, chunk, from, here, sink, between),
        advanced(here, chunk, from, r, after, between, sunk),
    ensures
        match r {
            Ok(end) => from < end <= chunk.len() && reached(
                first,
                chunk,
                end as int,
                after,
                sink,
                sunk,
            ),
            Err(UnnestError::InvalidSyntax) => {
                &&& !first.run(chunk).ok
                &&& wrote(sink, sunk, first.run(chunk).out)
            },
            Err(UnnestError::Io(_)) => !sink.reliable(),
            Err(UnnestError::UnexpectedEndOfInput) => false,
        },
{
    let done = chunk.subrange(0, from);
    match r {
        Ok(end) => {
            let piece = chunk.subrange(from, end as int);
            lemma_run_split(first, done, piece);
            assert(done + piece =~= chunk.subrange(0, end as int));
            lemma_wrote_both(sink, between, sunk, first.run(done).out, here.run(piece).out);
        },
        Err(UnnestError::InvalidSyntax) => {
            let rest = chunk.skip(from);
            lemma_run_split(first, done, rest);
            assert(done + rest =~= chunk);
            lemma_wrote_both(sink, between, sunk, first.run(done).out, here.run(rest).out);
        },
        _ => {},
    }
}

/// Takes the JSON values in `from` apart at the depth `target` and hands
/// each fragment to `to`.
///
/// A target of `1` strips one level of nesting: `[{"a":5}, {"a":6}]`
/// becomes `{"a":5}` and `{"a":6}`. `header_style` says how much of a
/// fragment's origin is kept.
///
/// The result is what [`unnest`] says of the whole input: success if every
/// value is complete, `InvalidSyntax` at a byte that the grammar refuses,
/// `UnexpectedEndOfInput` if the input ends inside a value. A sink that
/// keeps a transcript has grown by exactly what `unnest` writes, whichever
/// of the three it is. Only a sink that fails makes the run fail otherwise.
pub fn unnest_to_ndjson<S: Sinker>(
    from: &[u8],
    to: &mut S,
    target: usize,
    header_style: HeaderStyle,
) -> (r: Result<(), UnnestError>)
    ensures
        match r {
            Ok(()) => {
                let whole = unnest(from@, target as nat, header_style);
                &&& whole.outcome is Complete
                &&& wrote(*old(to), *final(to), whole.out)
            },
            Err(UnnestError::InvalidSyntax) => {
                let whole = unnest(from@, target as nat, header_style);
                &&& whole.outcome is Refused
                &&& wrote(*old(to), *final(to), whole.out)
            },
            Err(UnnestError::UnexpectedEndOfInput) => {
                let whole = unnest(from@, target as nat, header_style);
                &&& whole.outcome is Truncated
                &&& wrote(*old(to), *final(to), whole.out)
            },
            Err(UnnestError::Io(_)) => !old(to).reliable(),
        },
{
    proof {
        lemma_wrote_nothing(*to);
    }
    let mut engine = Unnester::new(target, header_style)?;
    let ghost first = engine@;
    engine.feed(from, to)?;
    let ghost fed = *to;
    let ghost last = engine@;
    let r = engine.finish(to);
    proof {
        if !(r matches Err(UnnestError::Io(_))) {
            lemma_wrote_both(*old(to), fed, *to, first.run(from@).out, last.finish().out);
        }
    }
    r
}

} // verus!
