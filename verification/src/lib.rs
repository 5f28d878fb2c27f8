//! A small font-engineering toolkit.
//!
//! The centre of the crate is the sparse bit set codec: a compact,
//! tree-shaped byte encoding of sets of unsigned 32-bit integers.
//!
//! - `tree` says in mathematics what the stream of a set is and what set a
//!   stream stands for; `sparse_bit_set` holds the encoder and the decoder,
//!   which are proved to compute exactly that.
//! - `branch_factor`, `bit_stream`, `int_set`, `layers` and `layer_builder`
//!   are what the codec is made of.
//! - `round_trip` and `laws` prove what holds of the codec as a whole: what
//!   is written is read back, the stream chosen is the shortest, a full node
//!   is one zero word, and a stream cut short is refused.
//!
//! Beside the codec stand readers for two font tables: `head`, and the glyphs
//! of `glyf` (`glyph`, `simple`, `composite`, the flag sets and `glyf`), over
//! the bounds-checked byte reader of `font_data`; and `path`, which turns the
//! points of an outline into the moves, lines and curves that draw it.

pub mod bit_stream;
pub mod branch_factor;
pub mod composite;
pub mod composite_glyph_flags;
pub mod font_data;
pub mod glyf;
pub mod glyph;
pub mod head;
pub mod int_set;
pub mod laws;
pub mod layer_builder;
pub mod layers;
pub mod path;
pub mod round_trip;
pub mod scalars;
pub mod simple;
pub mod simple_glyph_flags;
pub mod sparse_bit_set;
pub mod tree;
pub mod tree_lemmas;
