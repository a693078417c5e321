//! High-level decode API.
use vstd::prelude::*;
use crate::basic;
use crate::basic::{expand, compact_pairs};
use crate::packbits;
use crate::packbits::packbits_decode;
use crate::bitmap;
use crate::bitmap::{expand_alternating, bitmap_decode, lines_view};

verus! {

/// Decode basic RLE (compact byte format).
///
/// Returns an empty vec if the input is malformed (of odd length).
pub fn basic_rle(data: &[u8]) -> (out: Vec<u8>)
    ensures
        out@ == (if data@.len() % 2 == 0 {
            expand(compact_pairs(data@))
        } else {
            Seq::<u8>::empty()
        }),
{
    match basic::decode_compact(data) {
        Some(v) => v,
        None => Vec::new(),
    }
}

/// Decode PackBits.
///
/// Returns an empty vec if the input is malformed.
pub fn packbits(data: &[u8]) -> (out: Vec<u8>)
    ensures
        out@ == (match packbits_decode(data@) {
            Some(v) => v,
            None => Seq::<u8>::empty(),
        }),
{
    match packbits::decode(data) {
        Some(v) => v,
        None => Vec::new(),
    }
}

/// Decode a bitmap RLE scanline.
///
/// Returns `None` if the data doesn't match the expected width.
pub fn bitmap_scanline(runs: &[u8], width: usize) -> (res: Option<Vec<u8>>)
    ensures
        match res {
            Some(v) => v@ == expand_alternating(0, runs@) && v@.len() == width,
            None => expand_alternating(0, runs@).len() != width,
        },
{
    bitmap::decode_scanline(runs, width)
}

/// Decode a full bitmap.
///
/// Returns `None` if the data is malformed.
pub fn bitmap_full(data: &[u8]) -> (res: Option<Vec<Vec<u8>>>)
    ensures
        match res {
            Some(v) => bitmap_decode(data@) == Some(lines_view(v@)),
            None => bitmap_decode(data@) is None,
        },
{
    bitmap::decode_bitmap(data)
}

} // verus!
