//! Pure helpers of the feed-extraction tool: deciding which raw frames of a
//! market-data file belong to the order stream of one instrument.
//!
//! A frame is a length-prefixed payload whose first byte is the message tag
//! and whose next two bytes are the big-endian locate code of the instrument.

use vstd::prelude::*;

verus! {

/// The message tags that carry order-lifecycle events: add, attributed add,
/// execute, execute with price, cancel, delete, replace.
pub open spec fn spec_is_order_tag(tag: u8) -> bool {
    ||| tag == 65u8  // 'A'
    ||| tag == 70u8  // 'F'
    ||| tag == 69u8  // 'E'
    ||| tag == 67u8  // 'C'
    ||| tag == 88u8  // 'X'
    ||| tag == 68u8  // 'D'
    ||| tag == 85u8  // 'U'
}

/// True exactly on the tags of order-lifecycle messages.
pub fn is_order_tag(tag: u8) -> (r: bool)
    ensures
        r == spec_is_order_tag(tag),
{
    tag == 65u8 || tag == 70u8 || tag == 69u8 || tag == 67u8 || tag == 88u8 || tag == 68u8
        || tag == 85u8
}

/// The 16-bit big-endian value held by two bytes.
pub open spec fn spec_be16(hi: u8, lo: u8) -> u16 {
    ((hi as int) * 256 + (lo as int)) as u16
}

/// Reads a big-endian 16-bit integer from two bytes.
pub fn be16(hi: u8, lo: u8) -> (r: u16)
    ensures
        r == spec_be16(hi, lo),
{
    (hi as u16) * 256 + (lo as u16)
}

/// Whether a raw frame payload should be copied to the filtered file:
/// it is long enough to carry a tag and a locate code, its locate code is
/// the one of the requested instrument, and its tag is an order tag.
pub open spec fn spec_frame_keep(payload: Seq<u8>, locate: u16) -> bool {
    &&& payload.len() >= 3
    &&& spec_be16(payload[1], payload[2]) == locate
    &&& spec_is_order_tag(payload[0])
}

/// Decides whether one frame payload belongs to the filtered order stream.
pub fn frame_keep(payload: &Vec<u8>, locate: u16) -> (keep: bool)
    ensures
        keep == spec_frame_keep(payload@, locate),
{
    if payload.len() < 3 {
        return false;
    }
    let stock_locate = be16(payload[1], payload[2]);
    stock_locate == locate && is_order_tag(payload[0])
}

} // verus!
