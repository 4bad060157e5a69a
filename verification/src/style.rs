//! The two shapes a fragment can be emitted in, and the bytes that wrap it.

use vstd::prelude::*;
use crate::bytes::{CLOSE_BRACE, COMMA, LINE_FEED};

verus! {

/// What is retained about where a fragment came from.
#[derive(Clone, Copy, PartialEq, Eq, Structural, Debug)]
#[non_exhaustive]
pub enum HeaderStyle {
    /// Nothing is retained: each fragment is written as it stands.
    Bare,
    /// The path to the fragment is retained.
    ///
    /// `{"a": {"H": 6}, "b": {"H": 7}}` becomes, at a target of `1`,
    /// `{"key":["a"],"value":{"H":6}}` and `{"key":["b"],"value":{"H":7}}`.
    PathArray,
}

/// The bytes `{"key":[` that open a wrapped fragment.
pub open spec fn wrapper_open() -> Seq<u8> {
    seq![0x7bu8, 0x22u8, 0x6bu8, 0x65u8, 0x79u8, 0x22u8, 0x3au8, 0x5bu8]
}

/// The bytes `],"value":` that stand between the path and the fragment.
pub open spec fn wrapper_middle() -> Seq<u8> {
    seq![0x5du8, 0x2cu8, 0x22u8, 0x76u8, 0x61u8, 0x6cu8, 0x75u8, 0x65u8, 0x22u8, 0x3au8]
}

/// The parts, in order, with one comma between each two neighbours.
pub open spec fn joined(parts: Seq<Seq<u8>>) -> Seq<u8>
    decreases parts.len(),
{
    if parts.len() == 0 {
        Seq::empty()
    } else if parts.len() == 1 {
        parts[0]
    } else {
        joined(parts.drop_last()) + seq![COMMA] + parts.last()
    }
}

/// What is written before a fragment found under `path`.
pub open spec fn item_prefix(path: Seq<Seq<u8>>, style: HeaderStyle) -> Seq<u8> {
    match style {
        HeaderStyle::Bare => Seq::empty(),
        HeaderStyle::PathArray => wrapper_open() + joined(path) + wrapper_middle(),
    }
}

/// What is written after a fragment: the end of the wrapper, if any, and the
/// line break.
pub open spec fn item_suffix(style: HeaderStyle) -> Seq<u8> {
    match style {
        HeaderStyle::Bare => seq![LINE_FEED],
        HeaderStyle::PathArray => seq![CLOSE_BRACE, LINE_FEED],
    }
}

/// The path as the byte strings it is made of.
pub open spec fn segments(path: Seq<Vec<u8>>) -> Seq<Seq<u8>> {
    Seq::new(path.len(), |i: int| path[i]@)
}

impl HeaderStyle {
    /// Whether fragments carry their path.
    pub open spec fn annotates(self) -> bool {
        self == HeaderStyle::PathArray
    }
}

} // verus!
