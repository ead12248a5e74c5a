//! Literal contexts: a number from 0 to 63 derived from the two bytes before a
//! literal, and the context-map row that it selects.
use vstd::prelude::*;
use crate::interface::{ContextType, PredictionModeContextMap};

verus! {

/// Context lookup for UTF-8 text: the first 256 entries classify the last
/// byte, the second 256 the byte before it.
pub const kUTF8ContextLookup: [u8; 512] = [
    0, 0, 0, 0, 0, 0, 0, 0, 0, 4, 4, 0, 0, 4, 0, 0,
    0, 0, 0, 0, 0, 0, 0, 0, 0, 0, 0, 0, 0, 0, 0, 0,
    8, 12, 16, 12, 12, 20, 12, 16, 24, 28, 12, 12, 32, 12, 36, 12,
    44, 44, 44, 44, 44, 44, 44, 44, 44, 44, 32, 32, 24, 40, 28, 12,
    12, 48, 52, 52, 52, 48, 52, 52, 52, 48, 52, 52, 52, 52, 52, 48,
    52, 52, 52, 52, 52, 48, 52, 52, 52, 52, 52, 24, 12, 28, 12, 12,
    12, 56, 60, 60, 60, 56, 60, 60, 60, 56, 60, 60, 60, 60, 60, 56,
    60, 60, 60, 60, 60, 56, 60, 60, 60, 60, 60, 24, 12, 28, 12, 0,
    0, 1, 0, 1, 0, 1, 0, 1, 0, 1, 0, 1, 0, 1, 0, 1,
    0, 1, 0, 1, 0, 1, 0, 1, 0, 1, 0, 1, 0, 1, 0, 1,
    0, 1, 0, 1, 0, 1, 0, 1, 0, 1, 0, 1, 0, 1, 0, 1,
    0, 1, 0, 1, 0, 1, 0, 1, 0, 1, 0, 1, 0, 1, 0, 1,
    2, 3, 2, 3, 2, 3, 2, 3, 2, 3, 2, 3, 2, 3, 2, 3,
    2, 3, 2, 3, 2, 3, 2, 3, 2, 3, 2, 3, 2, 3, 2, 3,
    2, 3, 2, 3, 2, 3, 2, 3, 2, 3, 2, 3, 2, 3, 2, 3,
    2, 3, 2, 3, 2, 3, 2, 3, 2, 3, 2, 3, 2, 3, 2, 3,
    0, 0, 0, 0, 0, 0, 0, 0, 0, 0, 0, 0, 0, 0, 0, 0,
    0, 0, 0, 0, 0, 0, 0, 0, 0, 0, 0, 0, 0, 0, 0, 0,
    0, 1, 1, 1, 1, 1, 1, 1, 1, 1, 1, 1, 1, 1, 1, 1,
    2, 2, 2, 2, 2, 2, 2, 2, 2, 2, 1, 1, 1, 1, 1, 1,
    1, 2, 2, 2, 2, 2, 2, 2, 2, 2, 2, 2, 2, 2, 2, 2,
    2, 2, 2, 2, 2, 2, 2, 2, 2, 2, 2, 1, 1, 1, 1, 1,
    1, 3, 3, 3, 3, 3, 3, 3, 3, 3, 3, 3, 3, 3, 3, 3,
    3, 3, 3, 3, 3, 3, 3, 3, 3, 3, 3, 1, 1, 1, 1, 0,
    0, 0, 0, 0, 0, 0, 0, 0, 0, 0, 0, 0, 0, 0, 0, 0,
    0, 0, 0, 0, 0, 0, 0, 0, 0, 0, 0, 0, 0, 0, 0, 0,
    0, 0, 0, 0, 0, 0, 0, 0, 0, 0, 0, 0, 0, 0, 0, 0,
    0, 0, 0, 0, 0, 0, 0, 0, 0, 0, 0, 0, 0, 0, 0, 0,
    0, 0, 0, 0, 0, 0, 0, 0, 0, 0, 0, 0, 0, 0, 0, 0,
    0, 0, 0, 0, 0, 0, 0, 0, 0, 0, 0, 0, 0, 0, 0, 0,
    2, 2, 2, 2, 2, 2, 2, 2, 2, 2, 2, 2, 2, 2, 2, 2,
    2, 2, 2, 2, 2, 2, 2, 2, 2, 2, 2, 2, 2, 2, 2, 2,
];

/// Context lookup for signed data: three bits per byte.
pub const kSigned3BitContextLookup: [u8; 256] = [
    0, 1, 1, 1, 1, 1, 1, 1, 1, 1, 1, 1, 1, 1, 1, 1,
    2, 2, 2, 2, 2, 2, 2, 2, 2, 2, 2, 2, 2, 2, 2, 2,
    2, 2, 2, 2, 2, 2, 2, 2, 2, 2, 2, 2, 2, 2, 2, 2,
    2, 2, 2, 2, 2, 2, 2, 2, 2, 2, 2, 2, 2, 2, 2, 2,
    3, 3, 3, 3, 3, 3, 3, 3, 3, 3, 3, 3, 3, 3, 3, 3,
    3, 3, 3, 3, 3, 3, 3, 3, 3, 3, 3, 3, 3, 3, 3, 3,
    3, 3, 3, 3, 3, 3, 3, 3, 3, 3, 3, 3, 3, 3, 3, 3,
    3, 3, 3, 3, 3, 3, 3, 3, 3, 3, 3, 3, 3, 3, 3, 3,
    4, 4, 4, 4, 4, 4, 4, 4, 4, 4, 4, 4, 4, 4, 4, 4,
    4, 4, 4, 4, 4, 4, 4, 4, 4, 4, 4, 4, 4, 4, 4, 4,
    4, 4, 4, 4, 4, 4, 4, 4, 4, 4, 4, 4, 4, 4, 4, 4,
    4, 4, 4, 4, 4, 4, 4, 4, 4, 4, 4, 4, 4, 4, 4, 4,
    5, 5, 5, 5, 5, 5, 5, 5, 5, 5, 5, 5, 5, 5, 5, 5,
    5, 5, 5, 5, 5, 5, 5, 5, 5, 5, 5, 5, 5, 5, 5, 5,
    5, 5, 5, 5, 5, 5, 5, 5, 5, 5, 5, 5, 5, 5, 5, 5,
    6, 6, 6, 6, 6, 6, 6, 6, 6, 6, 6, 6, 6, 6, 6, 7,
];

/// The literal context of the bytes `prev_byte` and, before it,
/// `prev_prev_byte`: a number below 64.
pub open spec fn context_of(prev_byte: u8, prev_prev_byte: u8, mode: ContextType) -> u8 {
    match mode {
        ContextType::CONTEXT_LSB6 => prev_byte % 64,
        ContextType::CONTEXT_MSB6 => prev_byte / 4,
        ContextType::CONTEXT_UTF8 => kUTF8ContextLookup@[prev_byte as int] | kUTF8ContextLookup@[256
            + prev_prev_byte],
        ContextType::CONTEXT_SIGNED => (kSigned3BitContextLookup@[prev_byte as int] * 8
            + kSigned3BitContextLookup@[prev_prev_byte as int]) as u8,
    }
}

/// The literal context of the bytes `prev_byte` and, before it,
/// `prev_prev_byte`: the low six bits of `prev_byte`, its top six bits, or a
/// combination of two table lookups.
pub fn Context(prev_byte: u8, prev_prev_byte: u8, mode: ContextType) -> (context: u8)
    ensures
        context == context_of(prev_byte, prev_prev_byte, mode),
        context < 64,
{
    match mode {
        ContextType::CONTEXT_LSB6 => {
            assert(prev_byte & 0x3f == prev_byte % 64) by (bit_vector);
            prev_byte & 0x3f
        },
        ContextType::CONTEXT_MSB6 => {
            assert(prev_byte >> 2 == prev_byte / 4) by (bit_vector);
            prev_byte >> 2
        },
        ContextType::CONTEXT_UTF8 => {
            let first: u8 = kUTF8ContextLookup[prev_byte as usize];
            let second: u8 = kUTF8ContextLookup[prev_prev_byte as usize + 256];
            assert(first < 64 && second < 64 ==> first | second < 64) by (bit_vector);
            first | second
        },
        ContextType::CONTEXT_SIGNED => {
            let first: u8 = kSigned3BitContextLookup[prev_byte as usize];
            let second: u8 = kSigned3BitContextLookup[prev_prev_byte as usize];
            assert(first < 8 ==> first << 3 == first * 8) by (bit_vector);
            (first << 3) + second
        },
    }
}

/// Row of the context map that a literal with the given context selects: the
/// entry of the literal context map at `block_type * 64 + context`, or the
/// context itself where the map has no such entry.
pub open spec fn context_map_entry(
    literal_context_map: Seq<u8>,
    block_type: u8,
    context: u8,
) -> int {
    let index = block_type * 64 + context;
    if index < literal_context_map.len() {
        literal_context_map[index] as int
    } else {
        context as int
    }
}

/// The context-map row and the literal context for a literal that follows the
/// bytes `prev_byte` and, before it, `prev_prev_byte`.
pub fn compute_huffman_table_index_for_context_map(
    prev_byte: u8,
    prev_prev_byte: u8,
    context_map: &PredictionModeContextMap,
    block_type: u8,
) -> (r: (usize, u8))
    requires
        context_map.context_type() is Some,
    ensures
        r.1 == context_of(prev_byte, prev_prev_byte, context_map.context_type()->Some_0),
        r.1 < 64,
        r.0 == context_map_entry(context_map.literal_context_map@, block_type, r.1),
        r.0 < 256,
{
    let mode = match context_map.literal_prediction_mode() {
        Some(mode) => mode,
        None => ContextType::CONTEXT_LSB6,
    };
    let prior: u8 = Context(prev_byte, prev_prev_byte, mode);
    let context_map_index: usize = ((block_type as usize) * 64) + prior as usize;
    if context_map_index < context_map.literal_context_map.len() {
        (context_map.literal_context_map[context_map_index] as usize, prior)
    } else {
        (prior as usize, prior)
    }
}

} // verus!
