//! Tokenization and grammar-constrained continuation masks for a
//! minimalist-grammar lexicon.
//!
//! The crate maps surface words to integer token ids ([`vocab`]), encodes
//! and decodes fixed-length token sequences as structured lexical content
//! ([`codec`], [`items`]), and computes, for every position of a batch of
//! token rows, which token ids the grammar admits as the next token: the
//! [`scan`] module reconstructs each row's structured prefixes — the
//! questions to put to the grammar oracle — and the [`mask`] module
//! projects the oracle's answers onto a boolean legality tensor over the
//! vocabulary.  The oracle itself is an external collaborator the host
//! injects; this crate owns everything on either side of that boundary.

use vstd::prelude::*;

pub mod codec;
pub mod items;
pub mod mask;
pub mod scan;
pub mod vocab;

verus! {

/// Token id reserved for the start-of-sequence marker.
pub const SOS: usize = 0;

/// Token id reserved for the end-of-sequence marker.
pub const EOS: usize = 1;

/// Token id reserved for the padding filler.
pub const PAD: usize = 2;

/// Token id reserved for the morpheme-join marker.
pub const AFFIX: usize = 3;

} // verus!
