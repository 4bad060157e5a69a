//! What holds of every run.

use vstd::prelude::*;
use crate::bytes::{
    CLOSE_BRACE,
    CLOSE_BRACKET,
    COLON,
    LOWER_U,
    OPEN_BRACE,
    OPEN_BRACKET,
    ends_primitive,
    is_hex_digit,
    is_line_break,
    is_short_escape,
    is_whitespace,
};
use crate::document::Json;
use crate::fragments::lemma_value;
use crate::lemmas::{
    lemma_closed_string_is_copied,
    lemma_run_after_primitive,
    lemma_run_blank_after_primitive,
    lemma_run_one,
    lemma_run_split,
    lemma_run_stuck,
    lemma_run_whitespace,
    lemma_scan_copies,
    lemma_step_keeps_order,
};
use crate::machine::{Escape, Lex, Machine, Mode, Outcome, Step, Unnested, scan, unnest};
use crate::style::HeaderStyle;

verus! {

/// Input that comes in two pieces yields what the whole yields: the run
/// over the second piece goes on where the run over the first ended.
pub proof fn law_pieces_make_the_whole(m: Machine, first: Seq<u8>, second: Seq<u8>)
    ensures
        m.run(first + second) == (if m.run(first).ok {
            m.run(first).followed_by(m.run(first).next.run(second))
        } else {
            m.run(first)
        }),
{
    lemma_run_split(m, first, second);
}

/// After a byte is refused nothing more is written: whatever follows the
/// refused byte, the run yields what it yielded up to that byte.
pub proof fn law_refusal_is_final(
    input: Seq<u8>,
    more: Seq<u8>,
    target: nat,
    style: HeaderStyle,
)
    requires
        unnest(input, target, style).outcome is Refused,
    ensures
        unnest(input + more, target, style) == unnest(input, target, style),
{
    if target <= isize::MAX {
        lemma_run_stuck(Machine::initial(target, style), input, more);
    }
}

/// A raw line break inside a string or a key is refused, and nothing is
/// written for it.
pub proof fn law_line_break_in_string_is_refused(m: Machine, b: u8)
    requires
        m.mode == Mode::InString(Escape::Plain) || m.mode == Mode::InKey(Escape::Plain),
        is_line_break(b),
    ensures
        !m.step(b).ok,
        m.step(b).out == Seq::<u8>::empty(),
{
    reveal(Machine::step);
    reveal(Machine::structural);
}

/// After a backslash, a byte that starts no escape is refused.
pub proof fn law_bad_escape_is_refused(m: Machine, b: u8)
    requires
        m.mode == Mode::InString(Escape::Escaped) || m.mode == Mode::InKey(Escape::Escaped),
        !is_short_escape(b),
        b != LOWER_U,
    ensures
        !m.step(b).ok,
        m.step(b).out == Seq::<u8>::empty(),
{
    reveal(Machine::step);
    reveal(Machine::structural);
}

/// Where one of the four hexadecimal digits of a `u` escape is due, any
/// other byte is refused.
pub proof fn law_short_unicode_escape_is_refused(m: Machine, left: u8, b: u8)
    requires
        m.mode == Mode::InString(Escape::Hex(left)) || m.mode == Mode::InKey(Escape::Hex(left)),
        !is_hex_digit(b),
    ensures
        !m.step(b).ok,
        m.step(b).out == Seq::<u8>::empty(),
{
    reveal(Machine::step);
}

/// After a key, anything but whitespace and the colon is refused.
pub proof fn law_missing_colon_is_refused(m: Machine, b: u8)
    requires
        m.mode is Colon,
        !is_whitespace(b),
        b != COLON,
    ensures
        !m.step(b).ok,
        m.step(b).out == Seq::<u8>::empty(),
{
    reveal(Machine::step);
    reveal(Machine::structural);
}

/// A string is copied as it is written, escapes and all. As long as no
/// byte is refused, what the scan has copied is what it has read, but for
/// a backslash whose escape has not come yet; and a string that its last
/// byte closes is copied whole.
pub proof fn law_strings_are_copied_unchanged(phase: Escape, input: Seq<u8>)
    requires
        phase != Escape::Escaped,
    ensures
        match scan(phase, input).status {
            Lex::Open(Escape::Escaped) => scan(phase, input).out == input.drop_last(),
            Lex::Open(_) => scan(phase, input).out == input,
            Lex::Closed => {
                &&& scan(phase, input).out.is_prefix_of(input)
                &&& input.len() > 0 && scan(phase, input.drop_last()).status is Open ==> scan(
                    phase,
                    input,
                ).out == input
            },
            Lex::Bad => scan(phase, input).out.is_prefix_of(input),
        },
{
    lemma_scan_copies(phase, input);
    if scan(phase, input).status is Closed && input.len() > 0 && scan(
        phase,
        input.drop_last(),
    ).status is Open {
        lemma_closed_string_is_copied(phase, input);
    }
}

/// An empty container above the target yields nothing, and the run is
/// complete.
pub proof fn law_empty_container_yields_nothing(object: bool, target: nat, style: HeaderStyle)
    requires
        1 <= target <= isize::MAX,
    ensures
        unnest(
            if object {
                seq![OPEN_BRACE, CLOSE_BRACE]
            } else {
                seq![OPEN_BRACKET, CLOSE_BRACKET]
            },
            target,
            style,
        ) == (Unnested { out: Seq::empty(), outcome: Outcome::Complete }),
{
    reveal(Machine::step);
    reveal(Machine::structural);
    let first = Machine::initial(target, style);
    let open = if object {
        OPEN_BRACE
    } else {
        OPEN_BRACKET
    };
    let shut = if object {
        CLOSE_BRACE
    } else {
        CLOSE_BRACKET
    };
    let input = seq![open, shut];
    assert(input =~= seq![open] + seq![shut]);
    lemma_run_one(first, open);
    let opened = first.step(open);
    lemma_run_one(opened.next, shut);
    lemma_run_split(first, seq![open], seq![shut]);
    let closed = opened.next.step(shut);
    assert(opened.out =~= Seq::<u8>::empty());
    assert(closed.out =~= Seq::<u8>::empty());
    assert(closed.next.frames =~= first.frames);
    assert(opened.out + closed.out =~= Seq::<u8>::empty());
    assert(first.run(input).out + closed.next.finish().out =~= Seq::<u8>::empty());
}

/// Between tokens, whitespace changes nothing: the state stays and nothing
/// is written.
pub proof fn law_whitespace_between_tokens(m: Machine, blank: Seq<u8>)
    requires
        !(m.mode is InKey) && !(m.mode is InString) && !(m.mode is InPrimitive),
        forall|i: int| 0 <= i < blank.len() ==> is_whitespace(#[trigger] blank[i]),
    ensures
        m.run(blank) == m.stay(),
{
    lemma_run_whitespace(m, blank);
}

/// Whitespace between tokens changes nothing in what a run yields.
///
/// Whitespace stands between tokens where the input before it leaves
/// neither a string nor a key open, and leaves a primitive open only if
/// what follows would end it anyway.
pub proof fn law_whitespace_changes_nothing(
    before: Seq<u8>,
    blank: Seq<u8>,
    after: Seq<u8>,
    target: nat,
    style: HeaderStyle,
)
    requires
        forall|i: int| 0 <= i < blank.len() ==> is_whitespace(#[trigger] blank[i]),
        ({
            let ran = Machine::initial(target, style).run(before);
            ran.ok ==> {
                &&& !(ran.next.mode is InKey)
                &&& !(ran.next.mode is InString)
                &&& ran.next.mode is InPrimitive ==> after.len() == 0 || ends_primitive(after[0])
            }
        }),
    ensures
        unnest(before + blank + after, target, style) == unnest(before + after, target, style),
{
    let first = Machine::initial(target, style);
    let ran = first.run(before);
    if blank.len() == 0 {
        assert(before + blank + after =~= before + after);
    } else if !ran.ok {
        lemma_run_stuck(first, before, blank + after);
        lemma_run_stuck(first, before, after);
        assert(before + blank + after =~= before + (blank + after));
    } else {
        let m = ran.next;
        assert(before + blank + after =~= before + (blank + after));
        lemma_run_split(first, before, blank + after);
        lemma_run_split(first, before, after);
        lemma_run_split(m, blank, after);
        if m.mode is InPrimitive {
            let ended = m.end_value(true);
            lemma_run_blank_after_primitive(m, blank);
            if after.len() == 0 {
                assert(m.run(after) == m.stay());
                assert(ended.next.run(after) == ended.next.stay());
                assert(ran.out + (ended.out + Seq::<u8>::empty()) + Seq::<u8>::empty() =~= (ran.out
                    + Seq::<u8>::empty()) + ended.out);
            } else {
                lemma_run_after_primitive(m, after);
            }
        } else {
            lemma_run_whitespace(m, blank);
            let rest = m.run(after);
            assert(Seq::<u8>::empty() + rest.out =~= rest.out);
        }
    }
}

/// A document yields its fragments.
///
/// For every valid document, written without whitespace between its
/// tokens, and every target depth: the run is complete, and what is
/// written is exactly the document's fragments at that depth, in the
/// order of the document. Each fragment is the text of a subtree at the
/// target depth, or of a leaf above it, under the path that leads to it.
pub proof fn law_document_yields_its_fragments(doc: Json, target: nat, style: HeaderStyle)
    requires
        doc.valid(),
        target <= isize::MAX,
    ensures
        unnest(doc.text(), target, style) == (Unnested {
            out: doc.fragments(target, Seq::empty(), style),
            outcome: Outcome::Complete,
        }),
{
    let first = Machine::initial(target, style);
    lemma_value(doc, first, Seq::empty());
    let r = first.run(doc.text());
    assert(first.end_value(true).next == first);
    if r.next.mode is InPrimitive {
        assert(r.next.end_value(true).next.frames == r.next.frames);
    } else {
        assert(r.out + Seq::<u8>::empty() =~= r.out);
    }
}

/// The text of some documents, each followed by one byte of whitespace.
pub open spec fn stream(docs: Seq<Json>, gap: u8) -> Seq<u8>
    decreases docs.len(),
{
    if docs.len() == 0 {
        Seq::empty()
    } else {
        stream(docs.drop_last(), gap) + docs.last().text() + seq![gap]
    }
}

/// The fragments of some documents, one document after the other.
pub open spec fn stream_fragments(docs: Seq<Json>, target: nat, style: HeaderStyle) -> Seq<u8>
    decreases docs.len(),
{
    if docs.len() == 0 {
        Seq::empty()
    } else {
        stream_fragments(docs.drop_last(), target, style) + docs.last().fragments(
            target,
            Seq::empty(),
            style,
        )
    }
}

/// Documents that follow one another are taken one by one: each yields
/// its fragments as if it stood alone, and after each the engine is where
/// it began.
pub proof fn law_documents_in_sequence(docs: Seq<Json>, gap: u8, target: nat, style: HeaderStyle)
    requires
        forall|i: int| 0 <= i < docs.len() ==> (#[trigger] docs[i]).valid(),
        is_whitespace(gap),
        target <= isize::MAX,
    ensures
        Machine::initial(target, style).run(stream(docs, gap)) == (Step {
            next: Machine::initial(target, style),
            out: stream_fragments(docs, target, style),
            ok: true,
        }),
        unnest(stream(docs, gap), target, style) == (Unnested {
            out: stream_fragments(docs, target, style),
            outcome: Outcome::Complete,
        }),
    decreases docs.len(),
{
    reveal(Machine::step);
    reveal(Machine::structural);
    let first = Machine::initial(target, style);
    if docs.len() > 0 {
        let doc = docs.last();
        let before = stream(docs.drop_last(), gap);
        law_documents_in_sequence(docs.drop_last(), gap, target, style);
        lemma_value(doc, first, Seq::empty());
        let r = first.run(doc.text());
        assert(first.end_value(true).next == first);
        lemma_run_one(r.next, gap);
        lemma_run_split(first, doc.text(), seq![gap]);
        let whole = first.run(doc.text() + seq![gap]);
        assert(whole == (Step {
            next: first,
            out: doc.fragments(target, Seq::empty(), style),
            ok: true,
        })) by {
            if r.next.mode is InPrimitive {
                let ended = r.next.end_value(true);
                assert(r.out + (ended.out + Seq::<u8>::empty()) =~= r.out + ended.out);
            } else {
                assert(r.out + Seq::<u8>::empty() =~= r.out);
            }
        }
        lemma_run_split(first, before, doc.text() + seq![gap]);
        assert(before + (doc.text() + seq![gap]) =~= stream(docs, gap));
    }
    let out = stream_fragments(docs, target, style);
    assert(out + Seq::<u8>::empty() =~= out);
}

/// The states that a run goes through are in order: a key is expected
/// only inside an object, an element only inside an array; the path is as
/// long as the containers above the target that have a member under way;
/// and where it runs through an array it holds the position of the element
/// at hand.
pub proof fn law_states_stay_in_order(m: Machine, input: Seq<u8>)
    requires
        m.inv(),
    ensures
        m.run(input).next.inv(),
    decreases input.len(),
{
    if input.len() > 0 {
        law_states_stay_in_order(m, input.drop_last());
        let before = m.run(input.drop_last());
        if before.ok {
            lemma_step_keeps_order(before.next, input.last());
        }
    }
}

} // verus!
