//! Tag algebra: pure arithmetic on one-byte DER tags.
//!
//! A tag byte holds three fields: the class (two high bits), the
//! primitive-or-constructed bit, and the tag number (low bits).  Tag numbers
//! handled here fit the low bits of one byte; the high-tag-number form is out
//! of scope.

use vstd::prelude::*;

verus! {

/// Class bits of a context-specific tag.
pub const CONTEXT_SPECIFIC: u8 = 0x80;

/// Bit marking a constructed (rather than primitive) encoding.
pub const CONSTRUCTED: u8 = 0x20;

/// Universal tag of BOOLEAN (primitive).
pub const BOOLEAN_TAG: u8 = 0x01;

/// Universal tag of INTEGER (primitive).
pub const INTEGER_TAG: u8 = 0x02;

/// Universal tag of OCTET STRING (primitive).
pub const OCTET_STRING_TAG: u8 = 0x04;

/// Universal tag of OBJECT IDENTIFIER (primitive).
pub const OBJECT_IDENTIFIER_TAG: u8 = 0x06;

/// Universal tag of SEQUENCE, constructed bit included.
pub const SEQUENCE_TAG: u8 = 0x30;

/// Largest tag number expressible without the high-tag-number form.
pub const MAX_TAG_NUMBER: u32 = 0x1e;

/// The constructed bit of a tag byte, either `0` or `CONSTRUCTED`.
pub open spec fn spec_constructed_bit(tag: u8) -> u8 {
    tag & CONSTRUCTED
}

/// Tag byte of an explicit context-specific tag: always constructed.
pub open spec fn spec_explicit_tag(n: u32) -> u8 {
    ((CONTEXT_SPECIFIC + CONSTRUCTED) as u8 + n) as u8
}

/// Tag byte of an implicit context-specific tag: the constructed bit is
/// copied from the tag of the value whose own tag is being replaced.
pub open spec fn spec_implicit_tag(n: u32, underlying: u8) -> u8 {
    (CONTEXT_SPECIFIC + spec_constructed_bit(underlying) + n) as u8
}

/// Computes the tag for an explicitly tagged element: context-specific
/// class, constructed, with the given tag number.
pub fn explicit_tag(n: u32) -> (r: u8)
    requires
        n <= MAX_TAG_NUMBER,
    ensures
        r == spec_explicit_tag(n),
        spec_constructed_bit(r) == CONSTRUCTED,
{
    let r: u8 = 0xa0 + (n as u8);
    proof {
        assert(r & 0x20 == 0x20) by (bit_vector)
            requires r >= 0xa0 && r <= 0xbe;
    }
    r
}

/// Computes the tag for an implicitly tagged element: context-specific
/// class, the given tag number, and the constructed bit of the underlying
/// value's own tag.
pub fn implicit_tag(n: u32, underlying: u8) -> (r: u8)
    requires
        n <= MAX_TAG_NUMBER,
    ensures
        r == spec_implicit_tag(n, underlying),
        spec_constructed_bit(r) == spec_constructed_bit(underlying),
{
    let cbit: u8 = underlying & CONSTRUCTED;
    let m: u8 = n as u8;
    proof {
        assert(cbit == 0 || cbit == 0x20) by (bit_vector)
            requires cbit == underlying & 0x20u8;
    }
    let r: u8 = 0x80 + cbit + m;
    proof {
        assert(r & 0x20 == cbit) by (bit_vector)
            requires
                (cbit == 0u8 || cbit == 0x20u8) && r == 0x80 + cbit + m && m <= 0x1eu8,
        ;
    }
    r
}

} // verus!
