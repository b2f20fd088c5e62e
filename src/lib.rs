//! Inter-frame delta compression of block-compressed animation frames.
//!
//! A frame arrives as a buffer of fixed-width compressed blocks (one per 4x4
//! pixel cell). The delta encoder replaces blocks that a decoder can rebuild
//! on its own (a copy from the previous frame, or the format's transparent
//! block) by run lengths, and the decoder replays those runs exactly.
//! The transparency pass repairs BC1 blocks whose 4x4 cell holds
//! transparent pixels.
//!
//! - `format`: the block formats, their block sizes and transparent blocks.
//! - `blocks`, `word`: blocks as byte ranges, and as little-endian words.
//! - `delta`: the skip classifier, the delta encoder and decoder, and the
//!   laws that tie them together (coverage, round trip).
//! - `color`, `transparency`: the 5:6:5 colour helpers and the BC1 repair.
//! - `codec`: decoding delta streams to PNG through the outside decoders.
//! - `layout`: integer geometry for cropping and compositing frames.
use vstd::prelude::*;

pub mod format;
pub mod blocks;
pub mod word;
pub mod delta;
pub mod color;
pub mod transparency;
pub mod codec;
pub mod layout;

verus! {

} // verus!
