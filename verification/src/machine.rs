//! What the engine does, byte by byte.
//!
//! The engine is a machine that takes one byte at a time. Its state says
//! which containers are open, which path leads to the value at hand, and
//! what the grammar expects next; each byte yields a new state and the bytes
//! to write. Everything the executable engine does is stated against this
//! machine.

use vstd::prelude::*;
use crate::bytes::{
    BACKSLASH,
    CLOSE_BRACE,
    CLOSE_BRACKET,
    COLON,
    COMMA,
    LOWER_U,
    OPEN_BRACE,
    OPEN_BRACKET,
    QUOTE,
    ends_primitive,
    is_hex_digit,
    is_line_break,
    is_short_escape,
    is_whitespace,
};
use crate::decimal::decimal;
use crate::style::{HeaderStyle, item_prefix, item_suffix};

verus! {

/// The two kinds of container.
#[derive(Clone, Copy, PartialEq, Eq, Structural, Debug)]
pub enum Container {
    Object,
    Array,
}

/// Where the scan of a string stands.
#[derive(Clone, Copy, PartialEq, Eq, Structural, Debug)]
pub enum Escape {
    /// Between escapes.
    Plain,
    /// Just after a backslash.
    Escaped,
    /// Inside `\u`, with this many hexadecimal digits still to come.
    Hex(u8),
}

/// What the grammar expects next.
#[derive(Clone, Copy, PartialEq, Eq, Structural, Debug)]
pub enum Mode {
    /// A value: at the top level, or after a colon.
    Value,
    /// An element of the array at hand, or its closing bracket.
    Element,
    /// A key of the object at hand, or its closing brace.
    Key,
    /// The rest of a key.
    InKey(Escape),
    /// The colon after a key.
    Colon,
    /// The rest of a string that is a value.
    InString(Escape),
    /// The rest of a primitive.
    InPrimitive,
    /// What follows a value inside a container: a comma or the closing
    /// bracket.
    Delimiter,
}

/// An open container: its kind and the position of the element at hand.
pub struct Frame {
    pub kind: Container,
    pub index: nat,
}

/// The state of the engine.
pub struct Machine {
    /// How many levels are stripped before a fragment starts.
    pub target: nat,
    pub style: HeaderStyle,
    /// The open containers, outermost first.
    pub frames: Seq<Frame>,
    /// The keys and positions that lead to the value at hand, as far as
    /// they are kept.
    pub path: Seq<Seq<u8>>,
    /// The part read so far of a key that is being kept.
    pub key: Seq<u8>,
    pub mode: Mode,
}

/// What one or more bytes did: the state they led to, what was written, and
/// whether the grammar took them. After a failure nothing more is written.
pub struct Step {
    pub next: Machine,
    pub out: Seq<u8>,
    pub ok: bool,
}

/// What one byte of a string does.
pub enum Scan {
    /// The string goes on; these bytes are copied.
    Copy(Seq<u8>, Escape),
    /// The byte is the closing quote.
    Done,
    /// The byte cannot stand here.
    Bad,
}

/// How the input's end is taken: the state it leaves, what is still
/// written, and whether the input was complete.
pub struct Finish {
    pub next: Machine,
    pub out: Seq<u8>,
    pub complete: bool,
}

/// One byte of a string, after the opening quote.
///
/// Outside escapes every byte is copied but the closing quote, the
/// backslash and raw line breaks, which are refused. After a backslash
/// stands one of `"` `/` `\` `b` `f` `r` `n` `t`, or `u` and four
/// hexadecimal digits. Escapes are copied as they are written, not decoded.
pub open spec fn scan_byte(phase: Escape, b: u8) -> Scan {
    match phase {
        Escape::Plain => if b == QUOTE {
            Scan::Done
        } else if b == BACKSLASH {
            Scan::Copy(Seq::empty(), Escape::Escaped)
        } else if is_line_break(b) {
            Scan::Bad
        } else {
            Scan::Copy(seq![b], Escape::Plain)
        },
        Escape::Escaped => if is_short_escape(b) {
            Scan::Copy(seq![BACKSLASH, b], Escape::Plain)
        } else if b == LOWER_U {
            Scan::Copy(seq![BACKSLASH, b], Escape::Hex(4))
        } else {
            Scan::Bad
        },
        Escape::Hex(left) => if is_hex_digit(b) {
            Scan::Copy(
                seq![b],
                if left <= 1 {
                    Escape::Plain
                } else {
                    Escape::Hex((left - 1) as u8)
                },
            )
        } else {
            Scan::Bad
        },
    }
}

/// Where a string stands after some of its bytes.
pub enum Lex {
    /// The string goes on.
    Open(Escape),
    /// The closing quote was read.
    Closed,
    /// A byte was refused.
    Bad,
}

/// What some bytes of a string did: where the string then stands, and what
/// was copied, the closing quote included.
pub struct Scanned {
    pub status: Lex,
    pub out: Seq<u8>,
}

/// The bytes of `input` taken as the rest of a string, up to the closing
/// quote or the first byte that is refused. What follows is not looked at.
pub open spec fn scan(phase: Escape, input: Seq<u8>) -> Scanned
    decreases input.len(),
{
    if input.len() == 0 {
        Scanned { status: Lex::Open(phase), out: Seq::empty() }
    } else {
        let before = scan(phase, input.drop_last());
        match before.status {
            Lex::Open(at) => match scan_byte(at, input.last()) {
                Scan::Copy(bytes, next) => Scanned {
                    status: Lex::Open(next),
                    out: before.out + bytes,
                },
                Scan::Done => Scanned { status: Lex::Closed, out: before.out.push(QUOTE) },
                Scan::Bad => Scanned { status: Lex::Bad, out: before.out },
            },
            _ => before,
        }
    }
}

/// The bracket that closes a container.
pub open spec fn closer(kind: Container) -> u8 {
    match kind {
        Container::Object => CLOSE_BRACE,
        Container::Array => CLOSE_BRACKET,
    }
}

/// `bytes` if `wanted`, else nothing.
pub open spec fn only_if(wanted: bool, bytes: Seq<u8>) -> Seq<u8> {
    if wanted {
        bytes
    } else {
        Seq::empty()
    }
}

impl Step {
    /// This step, and then `later` if this step did not fail.
    pub open spec fn followed_by(self, later: Step) -> Step {
        if self.ok {
            Step { next: later.next, out: self.out + later.out, ok: later.ok }
        } else {
            self
        }
    }
}

impl Machine {
    /// The state before the first byte.
    pub open spec fn initial(target: nat, style: HeaderStyle) -> Machine {
        Machine {
            target,
            style,
            frames: Seq::empty(),
            path: Seq::empty(),
            key: Seq::empty(),
            mode: Mode::Value,
        }
    }

    /// How deep the value at hand lies, counted from the target: negative
    /// above it, zero at it, positive inside a fragment.
    pub open spec fn depth(self) -> int {
        self.frames.len() - self.target
    }

    /// Inside a fragment: every byte of the structure is copied.
    pub open spec fn producing(self) -> bool {
        self.depth() > 0
    }

    /// At the target or above it.
    pub open spec fn collecting(self) -> bool {
        self.depth() <= 0
    }

    /// The path is being kept here.
    pub open spec fn tracking(self) -> bool {
        self.style.annotates() && self.collecting()
    }

    /// The container at hand has no member under way.
    pub open spec fn between_members(self) -> bool {
        self.mode is Key || self.mode is InKey || self.mode is Element || self.mode is Delimiter
    }

    /// How long the path is in this state.
    pub open spec fn open_segments(self) -> nat {
        if !self.style.annotates() {
            0
        } else if self.frames.len() > self.target {
            self.target
        } else if self.frames.len() > 0 && self.between_members() {
            (self.frames.len() - 1) as nat
        } else {
            self.frames.len()
        }
    }

    /// Wherever the path runs through an array, it holds the position of
    /// the element at hand.
    pub open spec fn indexed(self) -> bool {
        forall|i: int|
            0 <= i < self.path.len() && i < self.frames.len() && (#[trigger] self.frames[i]).kind
                == Container::Array ==> self.path[i] == decimal(self.frames[i].index)
    }

    /// What holds of every state that the initial state leads to.
    pub open spec fn inv(self) -> bool {
        &&& self.indexed()
        &&& (self.mode is Key || self.mode is InKey || self.mode is Colon) ==> self.frames.len() > 0
            && self.frames.last().kind == Container::Object
        &&& self.mode is Element ==> self.frames.len() > 0 && self.frames.last().kind
            == Container::Array
        &&& self.mode is Delimiter ==> self.frames.len() > 0
        &&& self.path.len() == self.open_segments()
    }

    /// The same state, with something else expected next.
    pub open spec fn with_mode(self, mode: Mode) -> Machine {
        Machine { mode, ..self }
    }

    /// The byte is passed over.
    pub open spec fn stay(self) -> Step {
        Step { next: self, out: Seq::empty(), ok: true }
    }

    /// The byte is refused.
    pub open spec fn fail(self) -> Step {
        Step { next: self, out: Seq::empty(), ok: false }
    }

    /// The first byte of a value.
    ///
    /// A bracket opens a container, which is copied only inside a fragment.
    /// A fragment that starts here is announced first: a container exactly
    /// at the target, a string or a primitive at the target or above it.
    pub open spec fn begin_value(self, b: u8) -> Step {
        if b == OPEN_BRACE || b == OPEN_BRACKET {
            let kind = if b == OPEN_BRACE {
                Container::Object
            } else {
                Container::Array
            };
            let mode = if b == OPEN_BRACE {
                Mode::Key
            } else {
                Mode::Element
            };
            Step {
                next: Machine { frames: self.frames.push(Frame { kind, index: 0 }), mode, ..self },
                out: only_if(self.depth() == 0, item_prefix(self.path, self.style)) + only_if(
                    self.depth() >= 0,
                    seq![b],
                ),
                ok: true,
            }
        } else {
            let mode = if b == QUOTE {
                Mode::InString(Escape::Plain)
            } else {
                Mode::InPrimitive
            };
            Step {
                next: self.with_mode(mode),
                out: only_if(self.collecting(), item_prefix(self.path, self.style)) + seq![b],
                ok: true,
            }
        }
    }

    /// A value is complete. `leaf` says that it was a string or a
    /// primitive.
    ///
    /// The fragment that ends here is closed: any value at the target, and
    /// a leaf above it. Inside a container the path loses the segment that
    /// led here.
    pub open spec fn end_value(self, leaf: bool) -> Step {
        let out = only_if(self.depth() == 0 || (leaf && self.depth() < 0), item_suffix(self.style));
        if self.frames.len() == 0 {
            Step { next: self.with_mode(Mode::Value), out, ok: true }
        } else {
            Step {
                next: Machine {
                    mode: Mode::Delimiter,
                    path: if self.tracking() {
                        self.path.drop_last()
                    } else {
                        self.path
                    },
                    ..self
                },
                out,
                ok: true,
            }
        }
    }

    /// The closing bracket of the container at hand.
    pub open spec fn close(self) -> Step {
        let bracket = only_if(self.producing(), seq![closer(self.frames.last().kind)]);
        let ended = Machine { frames: self.frames.drop_last(), ..self }.end_value(false);
        Step { next: ended.next, out: bracket + ended.out, ok: true }
    }

    /// An element of the array at hand begins: its position joins the
    /// path.
    pub open spec fn enter_element(self) -> Machine {
        if self.tracking() {
            Machine { path: self.path.push(decimal(self.frames.last().index)), ..self }
        } else {
            self
        }
    }

    /// The comma after a member.
    pub open spec fn next_member(self) -> Step {
        let top = self.frames.last();
        let next = match top.kind {
            Container::Object => self.with_mode(Mode::Key),
            Container::Array => Machine {
                frames: self.frames.drop_last().push(Frame { kind: top.kind, index: top.index + 1 }),
                mode: Mode::Element,
                ..self
            },
        };
        Step { next, out: only_if(self.producing(), seq![COMMA]), ok: true }
    }

    /// The opening quote of a key. Inside a fragment the key is copied;
    /// above it the key is kept for the path, or dropped where no path is
    /// kept.
    pub open spec fn begin_key(self) -> Step {
        Step {
            next: Machine {
                mode: Mode::InKey(Escape::Plain),
                key: if self.tracking() {
                    seq![QUOTE]
                } else {
                    self.key
                },
                ..self
            },
            out: only_if(self.producing(), seq![QUOTE]),
            ok: true,
        }
    }

    /// One byte of a key.
    pub open spec fn key_byte(self, phase: Escape, b: u8) -> Step {
        match scan_byte(phase, b) {
            Scan::Bad => self.fail(),
            Scan::Copy(bytes, next) => Step {
                next: Machine {
                    mode: Mode::InKey(next),
                    key: if self.tracking() {
                        self.key + bytes
                    } else {
                        self.key
                    },
                    ..self
                },
                out: only_if(self.producing(), bytes),
                ok: true,
            },
            Scan::Done => Step {
                next: Machine {
                    mode: Mode::Colon,
                    path: if self.tracking() {
                        self.path.push(self.key.push(QUOTE))
                    } else {
                        self.path
                    },
                    key: if self.tracking() {
                        Seq::empty()
                    } else {
                        self.key
                    },
                    ..self
                },
                out: only_if(self.producing(), seq![QUOTE]),
                ok: true,
            },
        }
    }

    /// One byte of a string that is a value.
    pub open spec fn string_byte(self, phase: Escape, b: u8) -> Step {
        match scan_byte(phase, b) {
            Scan::Bad => self.fail(),
            Scan::Copy(bytes, next) => Step {
                next: self.with_mode(Mode::InString(next)),
                out: bytes,
                ok: true,
            },
            Scan::Done => {
                let ended = self.end_value(true);
                Step { next: ended.next, out: seq![QUOTE] + ended.out, ok: true }
            },
        }
    }

    /// One byte between tokens.
    ///
    /// Whitespace is passed over. Before a key, a comma is passed over
    /// too. Anything that the grammar does not expect is refused.
    #[verifier::opaque]
    pub open spec fn structural(self, b: u8) -> Step {
        if is_whitespace(b) {
            self.stay()
        } else {
            match self.mode {
                Mode::Value => self.begin_value(b),
                Mode::Element => if b == CLOSE_BRACKET {
                    self.close()
                } else {
                    let entered = self.enter_element().begin_value(b);
                    entered
                },
                Mode::Key => if b == COMMA {
                    self.stay()
                } else if b == QUOTE {
                    self.begin_key()
                } else if b == CLOSE_BRACE {
                    self.close()
                } else {
                    self.fail()
                },
                Mode::Colon => if b == COLON {
                    Step {
                        next: self.with_mode(Mode::Value),
                        out: only_if(self.producing(), seq![COLON]),
                        ok: true,
                    }
                } else {
                    self.fail()
                },
                Mode::Delimiter => if b == closer(self.frames.last().kind) {
                    self.close()
                } else if b == COMMA {
                    self.next_member()
                } else {
                    self.fail()
                },
                _ => self.fail(),
            }
        }
    }

    /// One byte.
    ///
    /// A primitive takes every byte up to the first that ends one; that
    /// byte completes the primitive and is then read as what follows it.
    #[verifier::opaque]
    pub open spec fn step(self, b: u8) -> Step {
        match self.mode {
            Mode::InKey(phase) => self.key_byte(phase, b),
            Mode::InString(phase) => self.string_byte(phase, b),
            Mode::InPrimitive => if ends_primitive(b) {
                let ended = self.end_value(true);
                ended.followed_by(ended.next.structural(b))
            } else {
                Step { next: self, out: seq![b], ok: true }
            },
            _ => self.structural(b),
        }
    }

    /// The bytes of `input`, one after the other, up to the first that is
    /// refused.
    pub open spec fn run(self, input: Seq<u8>) -> Step
        decreases input.len(),
    {
        if input.len() == 0 {
            self.stay()
        } else {
            let before = self.run(input.drop_last());
            if before.ok {
                before.followed_by(before.next.step(input.last()))
            } else {
                before
            }
        }
    }

    /// The end of the input.
    ///
    /// The input is complete between values at the top level; a primitive
    /// at hand is completed first. Anywhere else the input ends too early.
    pub open spec fn finish(self) -> Finish {
        match self.mode {
            Mode::Value => Finish {
                next: self,
                out: Seq::empty(),
                complete: self.frames.len() == 0,
            },
            Mode::InPrimitive => Finish {
                next: self.end_value(true).next,
                out: self.end_value(true).out,
                complete: self.frames.len() == 0,
            },
            _ => Finish { next: self, out: Seq::empty(), complete: false },
        }
    }
}

/// How a run over a whole input ends.
pub enum Outcome {
    /// Every value was complete.
    Complete,
    /// A byte was refused, or the target depth cannot be counted.
    Refused,
    /// The input ended inside a value.
    Truncated,
}

/// The result of a run over a whole input: what is written, and how it
/// ends.
pub struct Unnested {
    pub out: Seq<u8>,
    pub outcome: Outcome,
}

/// What the whole of `input` yields at the given target depth and style.
///
/// A target that a signed machine word cannot hold is refused before
/// anything is read.
pub open spec fn unnest(input: Seq<u8>, target: nat, style: HeaderStyle) -> Unnested {
    if target > isize::MAX {
        Unnested { out: Seq::empty(), outcome: Outcome::Refused }
    } else {
        let ran = Machine::initial(target, style).run(input);
        if !ran.ok {
            Unnested { out: ran.out, outcome: Outcome::Refused }
        } else {
            let end = ran.next.finish();
            Unnested {
                out: ran.out + end.out,
                outcome: if end.complete {
                    Outcome::Complete
                } else {
                    Outcome::Truncated
                },
            }
        }
    }
}

} // verus!
