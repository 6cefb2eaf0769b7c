//! Hiding a byte payload in Unicode variation selectors.
//!
//! A byte is carried by one of 256 variation selector scalar values,
//! drawn from the two ranges U+FE00..=U+FE0F (bytes 0 to 15) and
//! U+E0100..=U+E01EF (bytes 16 to 255). An encoded text is a base
//! character followed by one selector per payload byte; it renders as
//! the base glyph alone while carrying the payload invisibly. Decoding
//! extracts every selector-range character from anywhere in a text, so
//! it needs no anchor and never fails.

mod codec;
mod mapper;

pub use codec::analyze_encoded;
pub use codec::decode;
pub use codec::decoded_bytes;
pub use codec::encode;
pub use codec::encoded_chars;
pub use codec::lemma_encode_decode_round_trip;
pub use codec::lemma_encoded_counts;
pub use codec::lemma_selector_free_no_payload;
pub use codec::selector_chars;
pub use mapper::byte_to_scalar;
pub use mapper::byte_to_selector_char;
pub use mapper::byte_to_variation_selector;
pub use mapper::is_selector_char;
pub use mapper::lemma_byte_round_trip;
pub use mapper::lemma_selector_bijection;
pub use mapper::scalar_to_byte;
pub use mapper::selector_scalars;
pub use mapper::selector_to_byte;
pub use mapper::variation_selector_to_byte;
