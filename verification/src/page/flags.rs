//! Bits of a page's header-type byte.
use vstd::prelude::*;

verus! {

/// The page continues a packet that an earlier page left open.
pub const CONTINUED: u8 = 0x01;

/// The page is the first of its logical bitstream.
pub const FIRST_PAGE: u8 = 0x02;

/// The page is the last of its logical bitstream.
pub const LAST_PAGE: u8 = 0x04;

} // verus!
