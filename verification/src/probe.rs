//! Recognising an Ogg physical bitstream by its first bytes.
use crate::bytes;
use crate::bytes::matches_at;
use crate::page::CAPTURE_PATTERN;
use vstd::prelude::*;

verus! {

/// How surely `buf` begins an Ogg physical bitstream: 100 where the capture
/// pattern stands at offset 0, 0 elsewhere.
pub fn probe(buf: &[u8]) -> (score: u8)
    ensures
        score == if bytes::holds_at(buf@, 0, CAPTURE_PATTERN@) {
            100u8
        } else {
            0u8
        },
{
    if matches_at(buf, 0, &CAPTURE_PATTERN) {
        100
    } else {
        0
    }
}

} // verus!
