//! Split a large JSON document into the subtrees found at a chosen nesting
//! depth, one per line, without ever holding the document in memory.
//!
//! [`Unnester`] is the engine: it is fed the input piece by piece and hands
//! each fragment to a [`Sinker`] as soon as it is complete.
//! [`unnest_to_ndjson`] runs it over input that is already in memory.
//! [`Source`] buffers a reader, and [`Unnester::pull`] is one round of a run
//! that streams from it.
//!
//! What the engine does is stated against a machine that takes one byte at
//! a time ([`machine`]); what that machine makes of a whole document is
//! stated on the document's tree ([`document`], [`laws`]).

pub mod bytes;
pub mod decimal;
pub mod document;
pub mod engine;
pub mod error;
pub mod fragments;
pub mod laws;
pub mod lemmas;
pub mod machine;
pub mod sink;
pub mod source;
pub mod stream;
pub mod strings;
pub mod style;

pub use crate::engine::{Unnester, unnest_to_ndjson};
pub use crate::error::UnnestError;
pub use crate::sink::{MiniWrite, Sinker};
pub use crate::source::Source;
pub use crate::style::HeaderStyle;
