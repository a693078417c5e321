//! High-level encode API.
use vstd::prelude::*;
use crate::basic;
use crate::basic::{runs, compact};
use crate::packbits;
use crate::packbits::packbits_encode;
use crate::bitmap;
use crate::bitmap::{scanline_encode, bitmap_encode, lines_view};

verus! {

/// Encode using basic RLE (compact byte format).
pub fn basic_rle(data: &[u8]) -> (out: Vec<u8>)
    requires
        2 * runs(data@).len() <= usize::MAX,
    ensures
        out@ == compact(runs(data@)),
{
    basic::encode_compact(data)
}

/// Encode using PackBits.
pub fn packbits(data: &[u8]) -> (out: Vec<u8>)
    ensures
        out@ == packbits_encode(data@),
{
    packbits::encode(data)
}

/// Encode a single scanline using bitmap RLE.
pub fn bitmap_scanline(scanline: &[u8]) -> (out: Vec<u8>)
    ensures
        out@ == scanline_encode(scanline@),
{
    bitmap::encode_scanline(scanline)
}

/// Encode a full bitmap (multiple scanlines).
pub fn bitmap_full(scanlines: &[Vec<u8>]) -> (out: Vec<u8>)
    ensures
        out@ == bitmap_encode(lines_view(scanlines@)),
{
    bitmap::encode_bitmap(scanlines)
}

} // verus!
