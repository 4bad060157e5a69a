//! The proof that the machine writes a document's fragments.

use vstd::prelude::*;
use crate::bytes::{CLOSE_BRACKET, COLON, COMMA, QUOTE, ends_primitive, is_whitespace};
use crate::decimal::decimal;
use crate::document::{Json, is_primitive, is_string, opener, segment};
use crate::lemmas::{
    lemma_closed_string_is_copied,
    lemma_run_key_closed,
    lemma_run_one,
    lemma_run_primitive,
    lemma_run_split,
    lemma_run_string_closed,
};
use crate::machine::{Container, Escape, Frame, Machine, Mode, Step, closer, only_if};
use crate::style::{item_prefix, item_suffix};

verus! {

/// A step, with the primitive at hand completed if there is one.
pub open spec fn settled(r: Step) -> Step {
    if r.ok && r.next.mode is InPrimitive {
        r.followed_by(r.next.end_value(true))
    } else {
        r
    }
}

/// The state in which a value starts: where an element is expected, the
/// element's position has joined the path.
pub open spec fn value_start(pre: Machine) -> Machine {
    if pre.mode is Element {
        pre.enter_element()
    } else {
        pre
    }
}

/// The first byte of a value is taken in the state in which the value
/// starts.
pub proof fn lemma_first_byte(pre: Machine, b: u8)
    requires
        pre.mode is Value || pre.mode is Element,
        !is_whitespace(b),
        pre.mode is Element ==> b != CLOSE_BRACKET,
    ensures
        pre.step(b) == value_start(pre).begin_value(b),
{
    reveal(Machine::step);
    reveal(Machine::structural);
}

/// The end of a value does not depend on what the value was.
pub proof fn lemma_end_value_any_mode(at: Machine, mode: Mode, leaf: bool)
    ensures
        at.with_mode(mode).end_value(leaf) == at.end_value(leaf),
{
}

/// A string as a value: it is announced where fragments start, copied,
/// and the value is complete.
pub proof fn lemma_string_value(pre: Machine, text: Seq<u8>)
    requires
        pre.mode is Value || pre.mode is Element,
        is_string(text),
    ensures
        pre.run(text) == (Step {
            next: value_start(pre).end_value(true).next,
            out: only_if(
                value_start(pre).collecting(),
                item_prefix(value_start(pre).path, pre.style),
            ) + text + value_start(pre).end_value(true).out,
            ok: true,
        }),
{
    let at = value_start(pre);
    let body = text.skip(1);
    let quote = seq![QUOTE];
    let inside = at.with_mode(Mode::InString(Escape::Plain));
    let head = only_if(at.collecting(), item_prefix(at.path, pre.style));
    let ended = at.end_value(true);
    assert(text =~= quote + body);
    assert(pre.run(quote) == (Step { next: inside, out: head + quote, ok: true })) by {
        lemma_run_one(pre, QUOTE);
        lemma_first_byte(pre, QUOTE);
    }
    assert(inside.run(body) == (Step { next: ended.next, out: body + ended.out, ok: true })) by {
        lemma_run_string_closed(inside, Escape::Plain, body);
        lemma_closed_string_is_copied(Escape::Plain, body);
        lemma_end_value_any_mode(at, Mode::InString(Escape::Plain), true);
    }
    lemma_run_split(pre, quote, body);
    assert((head + quote) + (body + ended.out) =~= head + text + ended.out);
}

/// A primitive as a value: it is announced where fragments start and
/// copied; it is complete only with the byte that follows.
pub proof fn lemma_primitive_value(pre: Machine, text: Seq<u8>)
    requires
        pre.mode is Value || pre.mode is Element,
        is_primitive(text),
    ensures
        pre.run(text) == (Step {
            next: value_start(pre).with_mode(Mode::InPrimitive),
            out: only_if(
                value_start(pre).collecting(),
                item_prefix(value_start(pre).path, pre.style),
            ) + text,
            ok: true,
        }),
{
    let at = value_start(pre);
    let rest = text.skip(1);
    let head = seq![text[0]];
    assert(text =~= head + rest);
    assert(!ends_primitive(text[0]));
    lemma_run_one(pre, text[0]);
    lemma_run_split(pre, head, rest);
    let first = pre.step(text[0]);
    lemma_first_byte(pre, text[0]);
    let inside = at.with_mode(Mode::InPrimitive);
    assert(first.next == inside);
    assert forall|i: int| 0 <= i < rest.len() implies !ends_primitive(#[trigger] rest[i]) by {
        assert(rest[i] == text[i + 1]);
    }
    lemma_run_primitive(inside, rest);
    let announced = only_if(at.collecting(), item_prefix(at.path, pre.style));
    assert((announced + head) + rest =~= announced + text);
}

/// The state after a key.
pub open spec fn after_key(m: Machine, key: Seq<u8>) -> Machine {
    Machine {
        mode: Mode::Colon,
        path: if m.tracking() {
            m.path.push(key)
        } else {
            m.path
        },
        ..m
    }
}

/// A key: it is copied inside a fragment, and joins the path where one
/// is kept.
pub proof fn lemma_key(m: Machine, key: Seq<u8>)
    requires
        m.mode is Key,
        m.key.len() == 0,
        is_string(key),
    ensures
        m.run(key) == (Step { next: after_key(m, key), out: only_if(m.producing(), key), ok: true }),
{
    reveal(Machine::step);
    reveal(Machine::structural);
    let body = key.skip(1);
    let quote = seq![QUOTE];
    assert(key =~= quote + body);
    lemma_run_one(m, QUOTE);
    lemma_run_split(m, quote, body);
    let first = m.step(QUOTE);
    assert(first == m.begin_key());
    let inside = first.next;
    lemma_run_key_closed(inside, Escape::Plain, body);
    lemma_closed_string_is_copied(Escape::Plain, body);
    assert(inside.tracking() == m.tracking() && inside.producing() == m.producing());
    if m.tracking() {
        assert(inside.key + body =~= key);
        assert(m.key =~= Seq::<u8>::empty());
    }
    assert(only_if(m.producing(), quote) + only_if(m.producing(), body) =~= only_if(
        m.producing(),
        key,
    ));
}

/// A byte that follows a value and is no whitespace completes the
/// primitive at hand, if there is one, and is then taken as a delimiter.
pub proof fn lemma_after_value(r: Step, b: u8)
    requires
        r.ok,
        r.next.mode is InPrimitive || r.next.mode is Delimiter,
        ends_primitive(b),
    ensures
        r.followed_by(r.next.step(b)) == settled(r).followed_by(settled(r).next.structural(b)),
{
    reveal(Machine::step);
    reveal(Machine::structural);
    if r.next.mode is InPrimitive {
        let ended = r.next.end_value(true);
        let last = ended.next.structural(b);
        assert(r.out + (ended.out + last.out) =~= (r.out + ended.out) + last.out);
    }
}

/// To complete the primitive at hand after a step that went before
/// changes nothing in that step.
pub proof fn lemma_settled_later(first: Step, second: Step)
    requires
        first.ok,
    ensures
        settled(first.followed_by(second)) == first.followed_by(settled(second)),
{
    if second.ok && second.next.mode is InPrimitive {
        let ended = second.next.end_value(true);
        assert((first.out + second.out) + ended.out =~= first.out + (second.out + ended.out));
    }
}

/// The state in which the member at `position` starts, in a container
/// that was opened in the state `at`.
pub open spec fn member_start(at: Machine, kind: Container, position: nat) -> Machine {
    Machine {
        frames: at.frames.push(
            Frame {
                kind,
                index: if kind == Container::Array {
                    position
                } else {
                    0
                },
            },
        ),
        mode: match kind {
            Container::Object => Mode::Key,
            Container::Array => Mode::Element,
        },
        ..at
    }
}

/// The state after the member at `position`.
pub open spec fn between(at: Machine, kind: Container, position: nat) -> Machine {
    member_start(at, kind, position).with_mode(Mode::Delimiter)
}

/// Where the path is kept, the machine's path is `path`.
pub open spec fn follows(at: Machine, path: Seq<Seq<u8>>) -> bool {
    at.tracking() ==> at.path == path
}

/// What is written for a value that starts in the state `at`: inside a
/// fragment its text, else its fragments.
pub open spec fn emitted(doc: Json, at: Machine, path: Seq<Seq<u8>>) -> Seq<u8> {
    if at.depth() > 0 {
        doc.text()
    } else {
        doc.fragments((-at.depth()) as nat, path, at.style)
    }
}

/// What is written for the first `count` members of a container that was
/// opened in the state `at`.
pub open spec fn members_emitted(
    kind: Container,
    members: Seq<(Seq<u8>, Json)>,
    count: nat,
    at: Machine,
    path: Seq<Seq<u8>>,
) -> Seq<u8> {
    if at.depth() >= 0 {
        Json::members_text(kind, members, count)
    } else {
        Json::members_fragments(kind, members, count, (-at.depth() - 1) as nat, path, at.style)
    }
}

/// The opening bracket.
pub proof fn lemma_open(at: Machine, kind: Container)
    ensures
        at.begin_value(opener(kind)) == (Step {
            next: member_start(at, kind, 0),
            out: only_if(at.depth() == 0, item_prefix(at.path, at.style)) + only_if(
                at.depth() >= 0,
                seq![opener(kind)],
            ),
            ok: true,
        }),
{
}

/// The closing bracket, before the first member or after any.
pub proof fn lemma_close(at: Machine, kind: Container, position: nat, first: bool)
    ensures
        ({
            let here = if first {
                member_start(at, kind, position)
            } else {
                between(at, kind, position)
            };
            here.structural(closer(kind)) == (Step {
                next: at.end_value(true).next,
                out: only_if(at.depth() >= 0, seq![closer(kind)]) + only_if(
                    at.depth() == 0,
                    item_suffix(at.style),
                ),
                ok: true,
            })
        }),
{
    reveal(Machine::step);
    reveal(Machine::structural);
    let here = if first {
        member_start(at, kind, position)
    } else {
        between(at, kind, position)
    };
    assert(here.frames.drop_last() =~= at.frames);
    let popped = Machine { frames: here.frames.drop_last(), ..here };
    assert(popped == at.with_mode(here.mode));
    lemma_end_value_any_mode(at, here.mode, false);
    assert(here.structural(closer(kind)) == here.close());
}

/// The comma between two members.
pub proof fn lemma_comma(at: Machine, kind: Container, position: nat)
    ensures
        between(at, kind, position).structural(COMMA) == (Step {
            next: member_start(at, kind, position + 1),
            out: only_if(at.depth() >= 0, seq![COMMA]),
            ok: true,
        }),
{
    reveal(Machine::step);
    reveal(Machine::structural);
    let here = between(at, kind, position);
    assert(here.structural(COMMA) == here.next_member());
    assert(here.frames.drop_last() =~= at.frames);
    assert(here.next_member().next.frames =~= member_start(at, kind, position + 1).frames);
}

/// The colon after a key.
pub proof fn lemma_colon(m: Machine)
    requires
        m.mode is Colon,
    ensures
        m.run(seq![COLON]) == (Step {
            next: m.with_mode(Mode::Value),
            out: only_if(m.producing(), seq![COLON]),
            ok: true,
        }),
{
    reveal(Machine::step);
    reveal(Machine::structural);
    lemma_run_one(m, COLON);
}

/// The end of a member's value leads to the state between two members.
pub proof fn lemma_member_end(at: Machine, kind: Container, position: nat, key: Seq<u8>)
    ensures
        ({
            let started = member_start(at, kind, position);
            let inside = match kind {
                Container::Object => after_key(started, key).with_mode(Mode::Value),
                Container::Array => started.enter_element(),
            };
            inside.end_value(true).next == between(at, kind, position)
        }),
{
    let started = member_start(at, kind, position);
    if started.tracking() {
        assert(at.path.push(key).drop_last() =~= at.path);
        assert(at.path.push(decimal(position)).drop_last() =~= at.path);
    }
}

/// A leaf as a value.
pub proof fn lemma_leaf(text: Seq<u8>, pre: Machine, path: Seq<Seq<u8>>)
    requires
        is_string(text) || is_primitive(text),
        pre.mode is Value || pre.mode is Element,
        follows(value_start(pre), path),
    ensures
        pre.run(text).ok,
        settled(pre.run(text)) == (Step {
            next: value_start(pre).end_value(true).next,
            out: emitted(Json::Leaf(text), value_start(pre), path),
            ok: true,
        }),
{
    let at = value_start(pre);
    let style = pre.style;
    let head = only_if(at.collecting(), item_prefix(at.path, style));
    let ended = at.end_value(true);
    let doc = Json::Leaf(text);
    assert(ended.out == only_if(at.collecting(), item_suffix(style)));
    assert(head + text + ended.out =~= emitted(doc, at, path)) by {
        if at.collecting() {
            assert(item_prefix(at.path, style) == item_prefix(path, style));
            assert(doc.text() == text);
        } else {
            assert(head + text + ended.out =~= text);
        }
    }
    if is_string(text) {
        lemma_string_value(pre, text);
        assert(!(ended.next.mode is InPrimitive));
    } else {
        lemma_primitive_value(pre, text);
        lemma_end_value_any_mode(at, Mode::InPrimitive, true);
    }
}

/// What stands before a container's members in what is written for it.
pub open spec fn node_head(at: Machine, kind: Container) -> Seq<u8> {
    only_if(at.depth() == 0, item_prefix(at.path, at.style)) + only_if(
        at.depth() >= 0,
        seq![opener(kind)],
    )
}

/// What stands after a container's members in what is written for it.
pub open spec fn node_tail(at: Machine, kind: Container) -> Seq<u8> {
    only_if(at.depth() >= 0, seq![closer(kind)]) + only_if(at.depth() == 0, item_suffix(at.style))
}

/// A run over three pieces, none of which is refused.
pub proof fn lemma_run_three(m: Machine, a: Seq<u8>, b: Seq<u8>, c: Seq<u8>)
    requires
        m.run(a).ok,
        m.run(a).next.run(b).ok,
    ensures
        m.run(a + b + c) == m.run(a).followed_by(
            m.run(a).next.run(b).followed_by(m.run(a).next.run(b).next.run(c)),
        ),
{
    let first = m.run(a);
    let second = first.next.run(b);
    let third = second.next.run(c);
    lemma_run_split(m, a, b);
    lemma_run_split(m, a + b, c);
    assert((first.out + second.out) + third.out =~= first.out + (second.out + third.out));
}

/// The opening bracket of a container that is a value.
pub proof fn lemma_node_open(pre: Machine, kind: Container)
    requires
        pre.mode is Value || pre.mode is Element,
    ensures
        pre.run(seq![opener(kind)]) == (Step {
            next: member_start(value_start(pre), kind, 0),
            out: node_head(value_start(pre), kind),
            ok: true,
        }),
{
    lemma_run_one(pre, opener(kind));
    lemma_first_byte(pre, opener(kind));
    lemma_open(value_start(pre), kind);
}

/// The closing bracket of a container, after what its members did.
pub proof fn lemma_node_close(at: Machine, kind: Container, count: nat, middle: Step, body: Seq<u8>)
    requires
        count == 0 ==> middle == member_start(at, kind, 0).stay() && body == Seq::<u8>::empty(),
        count > 0 ==> {
            &&& middle.ok
            &&& middle.next.mode is InPrimitive || middle.next.mode is Delimiter
            &&& settled(middle) == Step {
                next: between(at, kind, (count - 1) as nat),
                out: body,
                ok: true,
            }
        },
    ensures
        middle.followed_by(middle.next.run(seq![closer(kind)])) == (Step {
            next: at.end_value(true).next,
            out: body + node_tail(at, kind),
            ok: true,
        }),
{
    let tail = node_tail(at, kind);
    lemma_run_one(middle.next, closer(kind));
    let last = middle.next.step(closer(kind));
    if count == 0 {
        lemma_close(at, kind, 0, true);
        assert(last == middle.next.structural(closer(kind))) by {
            reveal(Machine::step);
        }
        assert(Seq::<u8>::empty() + last.out =~= body + tail);
    } else {
        lemma_after_value(middle, closer(kind));
        lemma_close(at, kind, (count - 1) as nat, false);
    }
}

/// A container, given what its members do: the brackets around them are
/// taken, and the container is complete.
pub proof fn lemma_node_run(
    kind: Container,
    members: Seq<(Seq<u8>, Json)>,
    pre: Machine,
    path: Seq<Seq<u8>>,
)
    requires
        pre.mode is Value || pre.mode is Element,
        members.len() > 0 ==> ({
            let at = value_start(pre);
            let r = member_start(at, kind, 0).run(
                Json::members_text(kind, members, members.len()),
            );
            &&& r.ok
            &&& r.next.mode is InPrimitive || r.next.mode is Delimiter
            &&& settled(r) == Step {
                next: between(at, kind, (members.len() - 1) as nat),
                out: members_emitted(kind, members, members.len(), at, path),
                ok: true,
            }
        }),
    ensures
        pre.run(Json::Node(kind, members).text()) == (Step {
            next: value_start(pre).end_value(true).next,
            out: node_head(value_start(pre), kind) + (members_emitted(
                kind,
                members,
                members.len(),
                value_start(pre),
                path,
            ) + node_tail(value_start(pre), kind)),
            ok: true,
        }),
{
    let at = value_start(pre);
    let open = seq![opener(kind)];
    let shut = seq![closer(kind)];
    let count = members.len();
    let inner = Json::members_text(kind, members, count);
    let started = member_start(at, kind, 0);
    let body = members_emitted(kind, members, count, at, path);
    let middle = started.run(inner);
    lemma_node_open(pre, kind);
    if count == 0 {
        assert(inner =~= Seq::<u8>::empty());
        assert(body =~= Seq::<u8>::empty());
    }
    lemma_node_close(at, kind, count, middle, body);
    lemma_run_three(pre, open, inner, shut);
    assert(Json::Node(kind, members).text() == open + inner + shut);
}

/// What a container's brackets and members add up to.
pub proof fn lemma_node_out(
    kind: Container,
    members: Seq<(Seq<u8>, Json)>,
    at: Machine,
    path: Seq<Seq<u8>>,
)
    requires
        follows(at, path),
    ensures
        node_head(at, kind) + (members_emitted(kind, members, members.len(), at, path) + node_tail(
            at,
            kind,
        )) == emitted(Json::Node(kind, members), at, path),
{
    let doc = Json::Node(kind, members);
    let open = seq![opener(kind)];
    let shut = seq![closer(kind)];
    let inner = Json::members_text(kind, members, members.len());
    let head = node_head(at, kind);
    let tail = node_tail(at, kind);
    let body = members_emitted(kind, members, members.len(), at, path);
    assert(doc.text() == open + inner + shut);
    if at.depth() > 0 {
        assert(head + (body + tail) =~= open + inner + shut);
    } else if at.depth() == 0 {
        assert(item_prefix(at.path, at.style) == item_prefix(path, at.style));
        assert(head + (body + tail) =~= item_prefix(path, at.style) + (open + inner + shut)
            + item_suffix(at.style));
    } else {
        assert(head + (body + tail) =~= body);
    }
}

/// A value, written without whitespace, is taken as its tree says: the
/// machine writes what the tree's fragments are, or the value's text inside
/// a fragment, and comes to the state that follows a value.
pub proof fn lemma_value(doc: Json, pre: Machine, path: Seq<Seq<u8>>)
    requires
        doc.valid(),
        pre.mode is Value || pre.mode is Element,
        pre.key.len() == 0,
        follows(value_start(pre), path),
    ensures
        pre.run(doc.text()).ok,
        settled(pre.run(doc.text())) == (Step {
            next: value_start(pre).end_value(true).next,
            out: emitted(doc, value_start(pre), path),
            ok: true,
        }),
    decreases doc, 0nat,
{
    let at = value_start(pre);
    match doc {
        Json::Leaf(text) => {
            lemma_leaf(text, pre, path);
        },
        Json::Node(kind, members) => {
            if members.len() > 0 {
                lemma_members(kind, members, members.len(), at, path);
            }
            lemma_node_run(kind, members, pre, path);
            lemma_node_out(kind, members, at, path);
            assert(!(at.end_value(true).next.mode is InPrimitive));
        },
    }
}

/// One member of a container.
pub proof fn lemma_member(
    kind: Container,
    members: Seq<(Seq<u8>, Json)>,
    position: nat,
    at: Machine,
    path: Seq<Seq<u8>>,
)
    requires
        position < members.len(),
        kind == Container::Object ==> is_string(members[position as int].0),
        members[position as int].1.valid(),
        at.key.len() == 0,
        follows(at, path),
    ensures
        ({
            let r = member_start(at, kind, position).run(
                Json::member_text(kind, members[position as int]),
            );
            let member = members[position as int];
            &&& r.ok
            &&& settled(r) == Step {
                next: between(at, kind, position),
                out: if at.depth() >= 0 {
                    Json::member_text(kind, member)
                } else {
                    member.1.fragments(
                        (-at.depth() - 1) as nat,
                        path.push(segment(kind, position, member.0)),
                        at.style,
                    )
                },
                ok: true,
            }
        }),
    decreases members, 0nat,
{
    let member = members[position as int];
    let started = member_start(at, kind, position);
    let way = path.push(segment(kind, position, member.0));
    lemma_member_end(at, kind, position, member.0);
    match kind {
        Container::Array => {
            let inside = started.enter_element();
            assert(follows(inside, way));
            lemma_value(member.1, started, way);
        },
        Container::Object => {
            let key = member.0;
            let keyed = after_key(started, key);
            let inside = keyed.with_mode(Mode::Value);
            let colon = seq![COLON];
            let text = member.1.text();
            assert(follows(inside, way));
            lemma_key(started, key);
            lemma_colon(keyed);
            lemma_value(member.1, inside, way);
            lemma_run_split(started, key, colon);
            lemma_run_split(started, key + colon, text);
            let front = started.run(key + colon);
            let wrote = only_if(at.depth() >= 0, key) + only_if(at.depth() >= 0, colon);
            assert(front == Step { next: inside, out: wrote, ok: true });
            lemma_settled_later(front, inside.run(text));
            if at.depth() >= 0 {
                assert(wrote + text =~= key + colon + text);
            } else {
                assert(wrote + emitted(member.1, inside, way) =~= emitted(
                    member.1,
                    inside,
                    way,
                ));
            }
        },
    }
}

/// The first `count` members of a container, with the commas between
/// them.
pub proof fn lemma_members(
    kind: Container,
    members: Seq<(Seq<u8>, Json)>,
    count: nat,
    at: Machine,
    path: Seq<Seq<u8>>,
)
    requires
        1 <= count <= members.len(),
        forall|i: int|
            0 <= i < members.len() ==> {
                &&& kind == Container::Object ==> is_string((#[trigger] members[i]).0)
                &&& members[i].1.valid()
            },
        at.key.len() == 0,
        follows(at, path),
    ensures
        ({
            let r = member_start(at, kind, 0).run(Json::members_text(kind, members, count));
            &&& r.ok
            &&& r.next.mode is InPrimitive || r.next.mode is Delimiter
            &&& settled(r) == Step {
                next: between(at, kind, (count - 1) as nat),
                out: members_emitted(kind, members, count, at, path),
                ok: true,
            }
        }),
    decreases members, count,
{
    let last = (count - 1) as nat;
    let member = members[last as int];
    lemma_member(kind, members, last, at, path);
    let text = Json::member_text(kind, member);
    let own = if at.depth() >= 0 {
        text
    } else {
        member.1.fragments(
            (-at.depth() - 1) as nat,
            path.push(segment(kind, last, member.0)),
            at.style,
        )
    };
    if count == 1 {
        if at.depth() < 0 {
            assert(Json::members_fragments(
                kind,
                members,
                0,
                (-at.depth() - 1) as nat,
                path,
                at.style,
            ) + own =~= own);
        }
        let r = member_start(at, kind, 0).run(text);
        assert(settled(r).next.mode is Delimiter);
    } else {
        let fewer = (count - 1) as nat;
        lemma_members(kind, members, fewer, at, path);
        let started = member_start(at, kind, 0);
        let before = Json::members_text(kind, members, fewer);
        let comma = seq![COMMA];
        let earlier = started.run(before);
        let gone = members_emitted(kind, members, fewer, at, path);
        let sep = only_if(at.depth() >= 0, comma);
        let next = member_start(at, kind, last);
        assert(started.run(before + comma) == (Step { next, out: gone + sep, ok: true })) by {
            lemma_run_split(started, before, comma);
            lemma_run_one(earlier.next, COMMA);
            lemma_after_value(earlier, COMMA);
            lemma_comma(at, kind, (fewer - 1) as nat);
        }
        lemma_run_split(started, before + comma, text);
        let front = started.run(before + comma);
        let r = next.run(text);
        lemma_settled_later(front, r);
        assert(settled(r).next.mode is Delimiter);
        assert((gone + sep) + own =~= members_emitted(kind, members, count, at, path));
    }
}

} // verus!
