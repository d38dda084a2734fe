//! Both-endian integer records, as optical disc images store them: the
//! little-endian bytes followed by the big-endian bytes, and a value is
//! read back only when the two orders agree.

use vstd::prelude::*;

verus! {

/// A value stored in both byte orders at once.
pub trait BiEndian: Sized {
    type Bytes;

    /// The little-endian bytes followed by the big-endian bytes.
    spec fn spec_to_bi_endian(self) -> Self::Bytes;

    /// The value the two orders agree on, if they agree.
    spec fn spec_from_bi_endian(bytes: Self::Bytes) -> Option<Self>;

    fn to_bi_endian(self) -> (r: Self::Bytes)
        ensures
            r == self.spec_to_bi_endian(),
    ;

    fn from_bi_endian(bytes: Self::Bytes) -> (r: Option<Self>)
        ensures
            r == Self::spec_from_bi_endian(bytes),
    ;
}

impl BiEndian for u16 {
    type Bytes = (u8, u8, u8, u8);

    open spec fn spec_to_bi_endian(self) -> (u8, u8, u8, u8) {
        ((self & 0xff) as u8, (self >> 8) as u8, (self >> 8) as u8, (self & 0xff) as u8)
    }

    open spec fn spec_from_bi_endian(bytes: (u8, u8, u8, u8)) -> Option<u16> {
        let le = (bytes.0 as u16) | ((bytes.1 as u16) << 8);
        let be = (bytes.3 as u16) | ((bytes.2 as u16) << 8);
        if le == be {
            Some(le)
        } else {
            None
        }
    }

    fn to_bi_endian(self) -> (r: (u8, u8, u8, u8)) {
        ((self & 0xff) as u8, (self >> 8) as u8, (self >> 8) as u8, (self & 0xff) as u8)
    }

    fn from_bi_endian(bytes: (u8, u8, u8, u8)) -> (r: Option<u16>) {
        let le = (bytes.0 as u16) | ((bytes.1 as u16) << 8);
        let be = (bytes.3 as u16) | ((bytes.2 as u16) << 8);
        if le == be {
            Some(le)
        } else {
            None
        }
    }
}

impl BiEndian for u32 {
    type Bytes = (u8, u8, u8, u8, u8, u8, u8, u8);

    open spec fn spec_to_bi_endian(self) -> (u8, u8, u8, u8, u8, u8, u8, u8) {
        (
            (self & 0xff) as u8,
            ((self >> 8) & 0xff) as u8,
            ((self >> 16) & 0xff) as u8,
            (self >> 24) as u8,
            (self >> 24) as u8,
            ((self >> 16) & 0xff) as u8,
            ((self >> 8) & 0xff) as u8,
            (self & 0xff) as u8,
        )
    }

    open spec fn spec_from_bi_endian(bytes: (u8, u8, u8, u8, u8, u8, u8, u8)) -> Option<u32> {
        let le = (bytes.0 as u32) | ((bytes.1 as u32) << 8)
            | ((bytes.2 as u32) << 16) | ((bytes.3 as u32) << 24);
        let be = (bytes.7 as u32) | ((bytes.6 as u32) << 8)
            | ((bytes.5 as u32) << 16) | ((bytes.4 as u32) << 24);
        if le == be {
            Some(le)
        } else {
            None
        }
    }

    fn to_bi_endian(self) -> (r: (u8, u8, u8, u8, u8, u8, u8, u8)) {
        (
            (self & 0xff) as u8,
            ((self >> 8) & 0xff) as u8,
            ((self >> 16) & 0xff) as u8,
            (self >> 24) as u8,
            (self >> 24) as u8,
            ((self >> 16) & 0xff) as u8,
            ((self >> 8) & 0xff) as u8,
            (self & 0xff) as u8,
        )
    }

    fn from_bi_endian(bytes: (u8, u8, u8, u8, u8, u8, u8, u8)) -> (r: Option<u32>) {
        let le = (bytes.0 as u32) | ((bytes.1 as u32) << 8)
            | ((bytes.2 as u32) << 16) | ((bytes.3 as u32) << 24);
        let be = (bytes.7 as u32) | ((bytes.6 as u32) << 8)
            | ((bytes.5 as u32) << 16) | ((bytes.4 as u32) << 24);
        if le == be {
            Some(le)
        } else {
            None
        }
    }
}

/// A both-endian record always reads back as the value it was written
/// from.
pub proof fn lemma_bi_endian_round_trip(x: u16, y: u32)
    ensures
        u16::spec_from_bi_endian(x.spec_to_bi_endian()) == Some(x),
        u32::spec_from_bi_endian(y.spec_to_bi_endian()) == Some(y),
{
    assert(((x & 0xff) as u16) | (((x >> 8) as u8 as u16) << 8) == x) by (bit_vector);
    assert((((x & 0xff) as u8) as u16) | (((x >> 8) as u8 as u16) << 8) == x) by (bit_vector);
    let y0 = (y & 0xff) as u8;
    let y1 = ((y >> 8) & 0xff) as u8;
    let y2 = ((y >> 16) & 0xff) as u8;
    let y3 = (y >> 24) as u8;
    assert((y0 as u32) | ((y1 as u32) << 8) | ((y2 as u32) << 16) | ((y3 as u32) << 24) == y)
        by (bit_vector)
        requires
            y0 == (y & 0xff) as u8,
            y1 == ((y >> 8) & 0xff) as u8,
            y2 == ((y >> 16) & 0xff) as u8,
            y3 == (y >> 24) as u8,
    ;
}

} // verus!
