//! What the engine makes of a whole document.
//!
//! A document is taken here as the tree it describes, and the fragments are
//! defined on that tree: the subtrees at the target depth, and the leaves
//! above it, each under the path that leads to it. The engine is proved to
//! write exactly these.

use vstd::prelude::*;
use crate::bytes::{
    COLON,
    COMMA,
    OPEN_BRACE,
    OPEN_BRACKET,
    QUOTE,
    ends_primitive,
};
use crate::decimal::decimal;
use crate::machine::{Container, Escape, closer, scan};
use crate::style::{HeaderStyle, item_prefix, item_suffix};

verus! {

/// A JSON value as a tree. Strings and primitives are kept as they are
/// written, and so are keys. An array's members have no key of their own.
pub enum Json {
    Leaf(Seq<u8>),
    Node(Container, Seq<(Seq<u8>, Json)>),
}

/// `text` is a string as it is written: a quote, then bytes that the scan
/// of a string accepts, the last of which is the closing quote.
pub open spec fn is_string(text: Seq<u8>) -> bool {
    &&& text.len() >= 2
    &&& text[0] == QUOTE
    &&& scan(Escape::Plain, text.skip(1).drop_last()).status is Open
    &&& scan(Escape::Plain, text.skip(1)).status is Closed
}

/// `text` is a primitive as it is written: it starts no string and no
/// container, and holds no byte that ends a primitive.
pub open spec fn is_primitive(text: Seq<u8>) -> bool {
    &&& text.len() >= 1
    &&& text[0] != QUOTE && text[0] != OPEN_BRACE && text[0] != OPEN_BRACKET
    &&& forall|i: int| 0 <= i < text.len() ==> !ends_primitive(#[trigger] text[i])
}

/// The bracket that opens a container.
pub open spec fn opener(kind: Container) -> u8 {
    match kind {
        Container::Object => OPEN_BRACE,
        Container::Array => OPEN_BRACKET,
    }
}

/// The segment of the path that leads to a container's member: the key in
/// an object, the position in an array.
pub open spec fn segment(kind: Container, position: nat, key: Seq<u8>) -> Seq<u8> {
    match kind {
        Container::Object => key,
        Container::Array => decimal(position),
    }
}

impl Json {
    /// Every leaf is a string or a primitive, and every key is a string.
    pub open spec fn valid(self) -> bool
        decreases self,
    {
        match self {
            Json::Leaf(text) => is_string(text) || is_primitive(text),
            Json::Node(kind, members) => forall|i: int|
                0 <= i < members.len() ==> {
                    &&& kind == Container::Object ==> is_string((#[trigger] members[i]).0)
                    &&& members[i].1.valid()
                },
        }
    }

    /// The value as it is written without whitespace between tokens.
    pub open spec fn text(self) -> Seq<u8>
        decreases self, 0nat,
    {
        match self {
            Json::Leaf(text) => text,
            Json::Node(kind, members) => seq![opener(kind)] + Json::members_text(
                kind,
                members,
                members.len(),
            ) + seq![closer(kind)],
        }
    }

    /// One member as it is written: the value, after its key and a colon
    /// in an object.
    pub open spec fn member_text(kind: Container, member: (Seq<u8>, Json)) -> Seq<u8>
        decreases member, 0nat,
    {
        match kind {
            Container::Object => member.0 + seq![COLON] + member.1.text(),
            Container::Array => member.1.text(),
        }
    }

    /// The first `count` members as they are written, with a comma between
    /// each two.
    pub open spec fn members_text(
        kind: Container,
        members: Seq<(Seq<u8>, Json)>,
        count: nat,
    ) -> Seq<u8>
        decreases members, count,
    {
        if count == 0 || count > members.len() {
            Seq::empty()
        } else if count == 1 {
            Json::member_text(kind, members[0])
        } else {
            Json::members_text(kind, members, (count - 1) as nat) + seq![COMMA]
                + Json::member_text(kind, members[count - 1])
        }
    }

    /// What is written for this value when it lies `levels` levels above
    /// the target, under `path`.
    ///
    /// At the target the value is one fragment. Above it a leaf is a
    /// fragment by itself, and a container yields the fragments of its
    /// members, in order, each under the path that its key or position
    /// extends.
    pub open spec fn fragments(self, levels: nat, path: Seq<Seq<u8>>, style: HeaderStyle) -> Seq<u8>
        decreases self, 0nat,
    {
        match self {
            Json::Node(kind, members) if levels > 0 => Json::members_fragments(
                kind,
                members,
                members.len(),
                (levels - 1) as nat,
                path,
                style,
            ),
            _ => item_prefix(path, style) + self.text() + item_suffix(style),
        }
    }

    /// The fragments of the first `count` members of a container found
    /// under `path`, the members lying `levels` levels above the target.
    pub open spec fn members_fragments(
        kind: Container,
        members: Seq<(Seq<u8>, Json)>,
        count: nat,
        levels: nat,
        path: Seq<Seq<u8>>,
        style: HeaderStyle,
    ) -> Seq<u8>
        decreases members, count,
    {
        if count == 0 || count > members.len() {
            Seq::empty()
        } else {
            let last = members[count - 1];
            Json::members_fragments(kind, members, (count - 1) as nat, levels, path, style)
                + last.1.fragments(
                levels,
                path.push(segment(kind, (count - 1) as nat, last.0)),
                style,
            )
        }
    }
}

} // verus!
