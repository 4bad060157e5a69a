//! Facts about the machine that the proofs rest on: how runs compose, what
//! a run does over bytes that the engine takes in bulk, and what every
//! step keeps in order.

use vstd::prelude::*;
use crate::bytes::{
    CLOSE_BRACE,
    CLOSE_BRACKET,
    COMMA,
    QUOTE,
    ends_primitive,
    is_whitespace,
    stops_string,
};
use crate::machine::{
    Escape,
    Lex,
    Machine,
    Mode,
    Scan,
    Scanned,
    Step,
    closer,
    only_if,
    scan,
    scan_byte,
};

verus! {

/// A run over one byte is that byte's step.
pub proof fn lemma_run_one(m: Machine, b: u8)
    ensures
        m.run(seq![b]) == m.step(b),
{
    let s = seq![b];
    assert(s.drop_last() =~= Seq::<u8>::empty());
    assert(m.run(s.drop_last()) == m.stay());
    assert(Seq::<u8>::empty() + m.step(b).out =~= m.step(b).out);
}

/// A run over two pieces is the run over the first, followed by the run
/// over the second from where the first ended.
pub proof fn lemma_run_split(m: Machine, a: Seq<u8>, b: Seq<u8>)
    ensures
        m.run(a + b) == (if m.run(a).ok {
            m.run(a).followed_by(m.run(a).next.run(b))
        } else {
            m.run(a)
        }),
    decreases b.len(),
{
    let first = m.run(a);
    if b.len() == 0 {
        assert(a + b =~= a);
        assert(first.out + Seq::<u8>::empty() =~= first.out);
    } else {
        lemma_run_split(m, a, b.drop_last());
        assert((a + b).drop_last() =~= a + b.drop_last());
        assert((a + b).last() == b.last());
        if first.ok {
            let mid = first.next.run(b.drop_last());
            if mid.ok {
                let last = mid.next.step(b.last());
                assert((first.out + mid.out) + last.out =~= first.out + (mid.out + last.out));
            }
        }
    }
}

/// Once a byte is refused, what follows changes nothing.
pub proof fn lemma_run_stuck(m: Machine, a: Seq<u8>, b: Seq<u8>)
    requires
        !m.run(a).ok,
    ensures
        m.run(a + b) == m.run(a),
{
    lemma_run_split(m, a, b);
}

/// A scan over two pieces is the scan over the first, followed by the
/// scan over the second if the string is still open.
pub proof fn lemma_scan_split(phase: Escape, a: Seq<u8>, b: Seq<u8>)
    ensures
        scan(phase, a + b) == (match scan(phase, a).status {
            Lex::Open(at) => Scanned {
                status: scan(at, b).status,
                out: scan(phase, a).out + scan(at, b).out,
            },
            _ => scan(phase, a),
        }),
    decreases b.len(),
{
    let first = scan(phase, a);
    if b.len() == 0 {
        assert(a + b =~= a);
        assert(first.out + Seq::<u8>::empty() =~= first.out);
    } else {
        lemma_scan_split(phase, a, b.drop_last());
        assert((a + b).drop_last() =~= a + b.drop_last());
        assert((a + b).last() == b.last());
        if let Lex::Open(at) = first.status {
            let mid = scan(at, b.drop_last());
            if let Lex::Open(then_at) = mid.status {
                match scan_byte(then_at, b.last()) {
                    Scan::Copy(bytes, next) => {
                        assert((first.out + mid.out) + bytes =~= first.out + (mid.out + bytes));
                    },
                    Scan::Done => {
                        assert((first.out + mid.out).push(QUOTE) =~= first.out + mid.out.push(
                            QUOTE,
                        ));
                    },
                    Scan::Bad => {},
                }
            }
        }
    }
}

/// Once a string is closed or a byte is refused, what follows changes
/// nothing.
pub proof fn lemma_scan_stuck(phase: Escape, a: Seq<u8>, b: Seq<u8>)
    requires
        !(scan(phase, a).status is Open),
    ensures
        scan(phase, a + b) == scan(phase, a),
{
    lemma_scan_split(phase, a, b);
}

/// As long as no byte is refused, what the scan of a string has copied is
/// what it has read, but for a backslash whose escape has not come yet.
pub proof fn lemma_scan_copies(phase: Escape, input: Seq<u8>)
    requires
        phase != Escape::Escaped,
    ensures
        match scan(phase, input).status {
            Lex::Open(Escape::Escaped) => scan(phase, input).out == input.drop_last(),
            Lex::Open(_) => scan(phase, input).out == input,
            Lex::Closed => scan(phase, input).out.is_prefix_of(input),
            Lex::Bad => scan(phase, input).out.is_prefix_of(input),
        },
    decreases input.len(),
{
    if input.len() > 0 {
        let front = input.drop_last();
        lemma_scan_copies(phase, front);
        let before = scan(phase, front);
        match before.status {
            Lex::Open(Escape::Escaped) => {
                let mid = front.drop_last();
                match scan_byte(Escape::Escaped, input.last()) {
                    Scan::Copy(bytes, next) => {
                        assert(scan(phase, front.drop_last()).status is Open);
                        assert(mid + bytes =~= input);
                    },
                    Scan::Done => {},
                    Scan::Bad => {
                        assert(mid.is_prefix_of(input));
                    },
                }
            },
            Lex::Open(at) => {
                match scan_byte(at, input.last()) {
                    Scan::Copy(bytes, next) => {
                        if next == Escape::Escaped {
                            assert(bytes =~= Seq::<u8>::empty());
                            assert(front + bytes =~= front);
                        } else {
                            assert(front + bytes =~= input);
                        }
                    },
                    Scan::Done => {
                        assert(front.push(input.last()) =~= input);
                    },
                    Scan::Bad => {
                        assert(front.is_prefix_of(input));
                    },
                }
            },
            _ => {
                assert(before.out.is_prefix_of(input));
            },
        }
    } else {
        assert(input =~= Seq::<u8>::empty());
    }
}

/// A string that is closed by its last byte is copied whole.
pub proof fn lemma_closed_string_is_copied(phase: Escape, body: Seq<u8>)
    requires
        phase != Escape::Escaped,
        body.len() > 0,
        scan(phase, body.drop_last()).status is Open,
        scan(phase, body).status is Closed,
    ensures
        scan(phase, body).out == body,
{
    lemma_scan_copies(phase, body.drop_last());
    let front = body.drop_last();
    let before = scan(phase, front);
    let at = before.status->Open_0;
    assert(scan_byte(at, body.last()) is Done);
    assert(at == Escape::Plain);
    assert(body.last() == QUOTE);
    assert(front.push(QUOTE) =~= body);
}

/// Between escapes, bytes that are neither quote, backslash nor line
/// break are copied as they are.
pub proof fn lemma_scan_plain(input: Seq<u8>)
    requires
        forall|i: int| 0 <= i < input.len() ==> !stops_string(#[trigger] input[i]),
    ensures
        scan(Escape::Plain, input) == (Scanned {
            status: Lex::Open(Escape::Plain),
            out: input,
        }),
    decreases input.len(),
{
    if input.len() > 0 {
        lemma_scan_plain(input.drop_last());
        assert(!stops_string(input[input.len() - 1]));
        assert(input.drop_last() + seq![input.last()] =~= input);
    } else {
        assert(input =~= Seq::<u8>::empty());
    }
}

/// Between tokens, whitespace changes nothing.
pub proof fn lemma_run_whitespace(m: Machine, input: Seq<u8>)
    requires
        !(m.mode is InKey) && !(m.mode is InString) && !(m.mode is InPrimitive),
        forall|i: int| 0 <= i < input.len() ==> is_whitespace(#[trigger] input[i]),
    ensures
        m.run(input) == m.stay(),
    decreases input.len(),
{
    reveal(Machine::step);
    reveal(Machine::structural);
    if input.len() > 0 {
        lemma_run_whitespace(m, input.drop_last());
        assert(is_whitespace(input[input.len() - 1]));
        assert(Seq::<u8>::empty() + Seq::<u8>::empty() =~= Seq::<u8>::empty());
    }
}

/// A primitive takes every byte that does not end one, and copies it.
pub proof fn lemma_run_primitive(m: Machine, input: Seq<u8>)
    requires
        m.mode is InPrimitive,
        forall|i: int| 0 <= i < input.len() ==> !ends_primitive(#[trigger] input[i]),
    ensures
        m.run(input) == (Step { next: m, out: input, ok: true }),
    decreases input.len(),
{
    reveal(Machine::step);
    reveal(Machine::structural);
    if input.len() > 0 {
        lemma_run_primitive(m, input.drop_last());
        assert(!ends_primitive(input[input.len() - 1]));
        assert(input.drop_last() + seq![input.last()] =~= input);
    } else {
        assert(input =~= Seq::<u8>::empty());
    }
}

/// Inside a string that is a value, the machine copies what the scan of
/// the string copies, as long as the string stays open; and it refuses
/// where the scan refuses.
pub proof fn lemma_run_string(m: Machine, phase: Escape, input: Seq<u8>)
    requires
        m.mode == Mode::InString(phase),
    ensures
        match scan(phase, input).status {
            Lex::Open(at) => m.run(input) == (Step {
                next: m.with_mode(Mode::InString(at)),
                out: scan(phase, input).out,
                ok: true,
            }),
            Lex::Bad => !m.run(input).ok && m.run(input).out == scan(phase, input).out,
            Lex::Closed => true,
        },
    decreases input.len(),
{
    reveal(Machine::step);
    reveal(Machine::structural);
    if input.len() > 0 {
        lemma_run_string(m, phase, input.drop_last());
        let before = scan(phase, input.drop_last());
        if let Lex::Open(at) = before.status {
            let here = m.with_mode(Mode::InString(at));
            match scan_byte(at, input.last()) {
                Scan::Copy(bytes, next) => {
                    assert(here.with_mode(Mode::InString(next)) == m.with_mode(
                        Mode::InString(next),
                    ));
                },
                Scan::Done => {},
                Scan::Bad => {
                    assert(before.out + Seq::<u8>::empty() =~= before.out);
                },
            }
        }
    } else {
        assert(m.with_mode(Mode::InString(phase)) == m);
    }
}

/// The closing quote of a string that is a value completes the value.
pub proof fn lemma_run_string_closed(m: Machine, phase: Escape, input: Seq<u8>)
    requires
        m.mode == Mode::InString(phase),
        input.len() > 0,
        scan(phase, input.drop_last()).status is Open,
        scan(phase, input).status is Closed,
    ensures
        m.run(input) == (Step {
            next: m.end_value(true).next,
            out: scan(phase, input).out + m.end_value(true).out,
            ok: true,
        }),
{
    reveal(Machine::step);
    reveal(Machine::structural);
    lemma_run_string(m, phase, input.drop_last());
    let before = scan(phase, input.drop_last());
    let at = before.status->Open_0;
    let here = m.with_mode(Mode::InString(at));
    let ended = m.end_value(true);
    assert(scan_byte(at, input.last()) is Done);
    assert(here.end_value(true) == ended);
    let last = here.step(input.last());
    assert(last == Step { next: ended.next, out: seq![QUOTE] + ended.out, ok: true });
    let ran = m.run(input.drop_last());
    assert(ran == Step { next: here, out: before.out, ok: true });
    assert(m.run(input) == ran.followed_by(last));
    assert(scan(phase, input).out == before.out.push(QUOTE));
    assert(before.out + (seq![QUOTE] + ended.out) =~= before.out.push(QUOTE) + ended.out);
}

/// What a key's bytes make of the state while the key stays open.
pub open spec fn key_open(m: Machine, at: Escape, copied: Seq<u8>) -> Machine {
    Machine {
        mode: Mode::InKey(at),
        key: if m.tracking() {
            m.key + copied
        } else {
            m.key
        },
        ..m
    }
}

/// What a key's bytes make of the state once the key is closed.
pub open spec fn key_closed(m: Machine, copied: Seq<u8>) -> Machine {
    Machine {
        mode: Mode::Colon,
        path: if m.tracking() {
            m.path.push(m.key + copied)
        } else {
            m.path
        },
        key: if m.tracking() {
            Seq::empty()
        } else {
            m.key
        },
        ..m
    }
}

/// Inside a key, the machine takes what the scan of the string copies to
/// where keys go here: the output inside a fragment, the path where one is
/// kept, nowhere else.
pub proof fn lemma_run_key(m: Machine, phase: Escape, input: Seq<u8>)
    requires
        m.mode == Mode::InKey(phase),
    ensures
        match scan(phase, input).status {
            Lex::Open(at) => m.run(input) == (Step {
                next: key_open(m, at, scan(phase, input).out),
                out: only_if(m.producing(), scan(phase, input).out),
                ok: true,
            }),
            Lex::Bad => !m.run(input).ok && m.run(input).out == only_if(
                m.producing(),
                scan(phase, input).out,
            ),
            Lex::Closed => true,
        },
    decreases input.len(),
{
    reveal(Machine::step);
    reveal(Machine::structural);
    if input.len() > 0 {
        lemma_run_key(m, phase, input.drop_last());
        let before = scan(phase, input.drop_last());
        if let Lex::Open(at) = before.status {
            let here = key_open(m, at, before.out);
            assert(here.tracking() == m.tracking() && here.producing() == m.producing());
            match scan_byte(at, input.last()) {
                Scan::Copy(bytes, next) => {
                    assert((m.key + before.out) + bytes =~= m.key + (before.out + bytes));
                    assert(only_if(m.producing(), before.out) + only_if(m.producing(), bytes) =~= only_if(
                        m.producing(),
                        before.out + bytes,
                    ));
                },
                Scan::Done => {},
                Scan::Bad => {
                    assert(only_if(m.producing(), before.out) + Seq::<u8>::empty() =~= only_if(
                        m.producing(),
                        before.out,
                    ));
                },
            }
        }
    } else {
        assert(m.key + Seq::<u8>::empty() =~= m.key);
        assert(key_open(m, phase, Seq::empty()) == m);
    }
}

/// The closing quote of a key completes the key.
pub proof fn lemma_run_key_closed(m: Machine, phase: Escape, input: Seq<u8>)
    requires
        m.mode == Mode::InKey(phase),
        input.len() > 0,
        scan(phase, input.drop_last()).status is Open,
        scan(phase, input).status is Closed,
    ensures
        m.run(input) == (Step {
            next: key_closed(m, scan(phase, input).out),
            out: only_if(m.producing(), scan(phase, input).out),
            ok: true,
        }),
{
    reveal(Machine::step);
    reveal(Machine::structural);
    lemma_run_key(m, phase, input.drop_last());
    let before = scan(phase, input.drop_last());
    let at = before.status->Open_0;
    let here = key_open(m, at, before.out);
    assert(here.tracking() == m.tracking() && here.producing() == m.producing());
    assert((m.key + before.out).push(QUOTE) =~= m.key + before.out.push(QUOTE));
    assert(only_if(m.producing(), before.out) + only_if(m.producing(), seq![QUOTE]) =~= only_if(
        m.producing(),
        before.out.push(QUOTE),
    ));
}

/// The end of a value keeps the states in order.
pub proof fn lemma_end_value_keeps_order(m: Machine, leaf: bool)
    requires
        m.indexed(),
        m.path.len() == m.with_mode(Mode::Value).open_segments(),
    ensures
        m.end_value(leaf).next.inv(),
{
}

/// The closing bracket keeps the states in order.
pub proof fn lemma_close_keeps_order(m: Machine)
    requires
        m.inv(),
        m.frames.len() > 0,
        m.mode is Key || m.mode is Element || m.mode is Delimiter,
    ensures
        m.close().next.inv(),
{
    let popped = Machine { frames: m.frames.drop_last(), ..m };
    lemma_end_value_keeps_order(popped, false);
}

/// The first byte of a value keeps the states in order.
pub proof fn lemma_begin_value_keeps_order(m: Machine, b: u8)
    requires
        m.indexed(),
        m.path.len() == m.with_mode(Mode::Value).open_segments(),
    ensures
        m.begin_value(b).next.inv(),
{
}

/// One byte between tokens keeps the states in order.
pub proof fn lemma_structural_keeps_order(m: Machine, b: u8)
    requires
        m.inv(),
        !(m.mode is InKey) && !(m.mode is InString) && !(m.mode is InPrimitive),
    ensures
        m.structural(b).next.inv(),
{
    reveal(Machine::step);
    reveal(Machine::structural);
    if !is_whitespace(b) {
        match m.mode {
            Mode::Value => {
                lemma_begin_value_keeps_order(m, b);
            },
            Mode::Element => {
                if b == CLOSE_BRACKET {
                    lemma_close_keeps_order(m);
                } else {
                    lemma_begin_value_keeps_order(m.enter_element(), b);
                }
            },
            Mode::Key => {
                if b == CLOSE_BRACE {
                    lemma_close_keeps_order(m);
                }
            },
            Mode::Delimiter => {
                if b == closer(m.frames.last().kind) {
                    lemma_close_keeps_order(m);
                } else if b == COMMA {
                    let after = m.next_member().next;
                    assert(after.path.len() == after.open_segments());
                    assert(after.indexed());
                }
            },
            _ => {},
        }
    }
}

/// One byte keeps the states in order.
pub proof fn lemma_step_keeps_order(m: Machine, b: u8)
    requires
        m.inv(),
    ensures
        m.step(b).next.inv(),
{
    reveal(Machine::step);
    reveal(Machine::structural);
    match m.mode {
        Mode::InKey(phase) => {},
        Mode::InString(phase) => {
            lemma_end_value_keeps_order(m, true);
        },
        Mode::InPrimitive => {
            if ends_primitive(b) {
                lemma_end_value_keeps_order(m, true);
                lemma_structural_keeps_order(m.end_value(true).next, b);
            }
        },
        _ => {
            lemma_structural_keeps_order(m, b);
        },
    }
}

/// Whitespace after a primitive completes the primitive and changes
/// nothing else.
pub proof fn lemma_run_blank_after_primitive(m: Machine, blank: Seq<u8>)
    requires
        m.mode is InPrimitive,
        blank.len() > 0,
        forall|i: int| 0 <= i < blank.len() ==> is_whitespace(#[trigger] blank[i]),
    ensures
        m.run(blank) == m.end_value(true),
{
    let ended = m.end_value(true);
    let first = seq![blank[0]];
    let rest = blank.skip(1);
    assert(blank =~= first + rest);
    assert(is_whitespace(blank[0]));
    assert(m.run(first) == ended) by {
        reveal(Machine::step);
        reveal(Machine::structural);
        lemma_run_one(m, blank[0]);
        assert(ended.out + Seq::<u8>::empty() =~= ended.out);
    }
    assert forall|i: int| 0 <= i < rest.len() implies is_whitespace(#[trigger] rest[i]) by {
        assert(rest[i] == blank[i + 1]);
    }
    lemma_run_whitespace(ended.next, rest);
    lemma_run_split(m, first, rest);
    assert(ended.out + Seq::<u8>::empty() =~= ended.out);
}

/// A byte that ends a primitive completes the primitive at hand; what
/// follows is taken as if the primitive had been complete before.
pub proof fn lemma_run_after_primitive(m: Machine, input: Seq<u8>)
    requires
        m.mode is InPrimitive,
        input.len() > 0,
        ends_primitive(input[0]),
    ensures
        m.run(input) == m.end_value(true).followed_by(m.end_value(true).next.run(input)),
{
    let ended = m.end_value(true);
    let first = seq![input[0]];
    let rest = input.skip(1);
    assert(input =~= first + rest);
    lemma_run_one(m, input[0]);
    lemma_run_one(ended.next, input[0]);
    lemma_run_split(m, first, rest);
    lemma_run_split(ended.next, first, rest);
    let taken = ended.next.run(first);
    assert(m.run(first) == ended.followed_by(taken)) by {
        reveal(Machine::step);
    }
    if taken.ok {
        let later = taken.next.run(rest);
        assert((ended.out + taken.out) + later.out =~= ended.out + (taken.out + later.out));
    }
}

} // verus!
