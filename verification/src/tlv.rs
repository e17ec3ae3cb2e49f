//! The DER tag-length-value form: the bytes one unit occupies, how the front
//! of a buffer reads as a unit, and the round-trip laws between the two.
//!
//! DER allows one encoding per value: a length below 0x80 must use the short
//! form, a long-form length must use the fewest bytes (so no leading zero),
//! and the reserved indefinite-length marker is never valid.

use vstd::prelude::*;

verus! {

/// Big-endian value of a byte run.
pub open spec fn be_val(s: Seq<u8>) -> nat
    decreases s.len(),
{
    if s.len() == 0 {
        0
    } else {
        (be_val(s.drop_last()) * 256 + s.last()) as nat
    }
}

/// Minimal big-endian bytes of a number: none for zero, never a leading
/// zero.
pub open spec fn be_min(n: nat) -> Seq<u8>
    decreases n,
{
    if n == 0 {
        Seq::empty()
    } else {
        be_min(n / 256) + seq![(n % 256) as u8]
    }
}

/// DER length octets for a content length: the length itself below 0x80,
/// otherwise 0x80 plus the count of its minimal big-endian bytes, then those
/// bytes.
pub open spec fn len_octets(n: nat) -> Seq<u8> {
    if n < 0x80 {
        seq![n as u8]
    } else {
        seq![(0x80 + be_min(n).len()) as u8] + be_min(n)
    }
}

/// The bytes of one TLV unit: the tag, the DER length of the content, the
/// content.
pub open spec fn tlv_bytes(tag: u8, content: Seq<u8>) -> Seq<u8> {
    seq![tag] + len_octets(content.len()) + content
}

/// How the front of a byte run reads as one TLV unit.
pub enum TlvShape {
    /// A complete unit: its tag, header byte count, content byte count.
    Unit { tag: u8, header: nat, length: nat },
    /// Too few bytes for the header or for the announced content.
    Truncated,
    /// A length encoding DER forbids: the indefinite marker, a long form of
    /// zero bytes or with a leading zero, or a long form where the short
    /// form would have sufficed.
    NonCanonical,
}

/// Reads the tag and DER length at the front of a byte run.
pub open spec fn spec_tlv(s: Seq<u8>) -> TlvShape {
    if s.len() < 2 {
        TlvShape::Truncated
    } else {
        let tag = s[0];
        let b = s[1];
        if b < 0x80 {
            if s.len() >= 2 + b {
                TlvShape::Unit { tag, header: 2, length: b as nat }
            } else {
                TlvShape::Truncated
            }
        } else {
            let k = (b - 0x80) as nat;
            if k == 0 || k == 0x7f {
                TlvShape::NonCanonical
            } else if s.len() < 2 + k {
                TlvShape::Truncated
            } else {
                let lb = s.subrange(2, 2 + k as int);
                if lb[0] == 0 {
                    TlvShape::NonCanonical
                } else {
                    let n = be_val(lb);
                    if n < 0x80 {
                        TlvShape::NonCanonical
                    } else if s.len() >= 2 + k + n {
                        TlvShape::Unit { tag, header: (2 + k) as nat, length: n }
                    } else {
                        TlvShape::Truncated
                    }
                }
            }
        }
    }
}

/// 256 raised to a power.
pub open spec fn p256(k: nat) -> nat
    decreases k,
{
    if k == 0 {
        1
    } else {
        256 * p256((k - 1) as nat)
    }
}

/// The minimal bytes read back as their value, and carry no leading zero.
pub proof fn lemma_be_min_val(n: nat)
    ensures
        be_val(be_min(n)) == n,
        n > 0 ==> be_min(n).len() >= 1 && be_min(n)[0] != 0,
    decreases n,
{
    if n > 0 {
        lemma_be_min_val(n / 256);
        let w = be_min(n / 256) + seq![(n % 256) as u8];
        assert(w.drop_last() =~= be_min(n / 256));
        assert(w.last() == (n % 256) as u8);
        if n / 256 == 0 {
            assert(w =~= seq![(n % 256) as u8]);
            assert(n % 256 == n);
        } else {
            assert(w[0] == be_min(n / 256)[0]);
        }
    }
}

/// The minimal bytes are no more than the power bound allows.
pub proof fn lemma_be_min_len(n: nat, j: nat)
    requires
        n < p256(j),
    ensures
        be_min(n).len() <= j,
    decreases j,
{
    if n > 0 {
        assert(j > 0);
        assert(n / 256 < p256((j - 1) as nat)) by (nonlinear_arith)
            requires n < p256(j), p256(j) == 256 * p256((j - 1) as nat), n > 0,
        ;
        lemma_be_min_len(n / 256, (j - 1) as nat);
    }
}

/// The value of a byte run only grows as bytes are appended.
pub proof fn lemma_be_val_prefix_le(s: Seq<u8>, j: int)
    requires
        0 <= j <= s.len(),
    ensures
        be_val(s.subrange(0, j)) <= be_val(s),
    decreases s.len() - j,
{
    if j < s.len() {
        lemma_be_val_prefix_le(s, j + 1);
        let t = s.subrange(0, j + 1);
        assert(t.drop_last() =~= s.subrange(0, j));
        assert(be_val(t) == be_val(s.subrange(0, j)) * 256 + t.last());
    } else {
        assert(s.subrange(0, j) =~= s);
    }
}

/// A run with a nonzero leading byte has a positive value.
pub proof fn lemma_be_val_pos(s: Seq<u8>)
    requires
        s.len() >= 1,
        s[0] != 0,
    ensures
        be_val(s) >= 1,
    decreases s.len(),
{
    if s.len() == 1 {
        assert(s.drop_last() =~= Seq::<u8>::empty());
        assert(s.last() == s[0]);
    } else {
        lemma_be_val_pos(s.drop_last());
    }
}

/// Minimal encodings are the only runs without a leading zero: any such run
/// is the minimal encoding of its own value.
pub proof fn lemma_be_min_unique(s: Seq<u8>)
    requires
        s.len() >= 1,
        s[0] != 0,
    ensures
        be_min(be_val(s)) == s,
    decreases s.len(),
{
    if s.len() == 1 {
        assert(s.drop_last() =~= Seq::<u8>::empty());
        assert(s.last() == s[0]);
        assert(be_val(Seq::<u8>::empty()) == 0);
        assert(be_val(s) == s[0]);
        assert(be_min(0) == Seq::<u8>::empty());
        assert(be_min(s[0] as nat) == be_min(0) + seq![s[0]]);
        assert(be_min(s[0] as nat) =~= s);
    } else {
        let a = s.drop_last();
        lemma_be_min_unique(a);
        lemma_be_val_pos(a);
        let v = be_val(s);
        assert(v == be_val(a) * 256 + s.last());
        assert(v / 256 == be_val(a) && v % 256 == s.last()) by (nonlinear_arith)
            requires v == be_val(a) * 256 + s.last(), s.last() < 256,
        ;
        assert(v > 0) by {
            assert(be_val(a) >= 1);
            assert(v >= 256) by (nonlinear_arith)
                requires v == be_val(a) * 256 + s.last(), be_val(a) >= 1,
            ;
        }
        assert(be_min(v) == be_min(be_val(a)) + seq![(v % 256) as u8]);
        assert(be_min(v) =~= s);
    }
}

/// Length canonicality: a unit the decoder accepts always carries its
/// length in the one DER form — the short form whenever the length is below
/// 0x80, and otherwise a minimal long form, never led by a zero byte.  The
/// converse rejections: a long form announcing a length a short form could
/// carry, and a long form with a leading zero byte, never read as a unit.
pub proof fn lemma_length_canonicality(s: Seq<u8>)
    ensures
        spec_tlv(s) matches TlvShape::Unit { header, length, .. } ==> ((length < 0x80 ==> header
            == 2) && (header > 2 ==> s[2] != 0 && length >= 0x80)),
        s.len() >= 3 && s[1] == 0x81 && s[2] < 0x80 ==> spec_tlv(s) is NonCanonical,
        s.len() >= 3 && s[1] >= 0x81 && s[1] != 0xff && s.len() >= 2 + (s[1] - 0x80) && s[2] == 0
            ==> spec_tlv(s) is NonCanonical,
{
    if s.len() >= 3 && s[1] == 0x81 && s[2] < 0x80 {
        let lb = s.subrange(2, 3);
        assert(lb.drop_last() =~= Seq::<u8>::empty());
        assert(lb.last() == s[2]);
        assert(be_val(Seq::<u8>::empty()) == 0);
        assert(be_val(lb) == s[2]);
    }
}

/// Writing a unit and reading it back: the front of `tlv_bytes(tag, c)`
/// followed by anything reads as a unit with that tag and `c`'s length.
/// This is the value-to-bytes-to-value half of the round trip.
pub proof fn lemma_tlv_bytes_parse(tag: u8, content: Seq<u8>, rest: Seq<u8>)
    requires
        content.len() < 0x1_0000_0000_0000_0000,
    ensures
        spec_tlv(tlv_bytes(tag, content) + rest) == (TlvShape::Unit {
            tag,
            header: 1 + len_octets(content.len()).len(),
            length: content.len(),
        }),
        tlv_bytes(tag, content).len() == 1 + len_octets(content.len()).len() + content.len(),
{
    let n = content.len();
    let s = tlv_bytes(tag, content) + rest;
    if n < 0x80 {
        assert(s[0] == tag);
        assert(s[1] == n as u8);
        assert(s.len() == 2 + n + rest.len());
    } else {
        lemma_be_min_val(n);
        let bm = be_min(n);
        let lenl = bm.len();
        assert(p256(8) == 0x1_0000_0000_0000_0000) by {
            assert(p256(0) == 1);
            assert(p256(1) == 256 * p256(0));
            assert(p256(2) == 256 * p256(1));
            assert(p256(3) == 256 * p256(2));
            assert(p256(4) == 256 * p256(3));
            assert(p256(5) == 256 * p256(4));
            assert(p256(6) == 256 * p256(5));
            assert(p256(7) == 256 * p256(6));
            assert(p256(8) == 256 * p256(7));
        }
        lemma_be_min_len(n, 8);
        assert(1 <= lenl <= 8);
        assert(s[0] == tag);
        assert(s[1] == (0x80 + lenl) as u8);
        let b = s[1];
        assert(b >= 0x80);
        let k = (b - 0x80) as nat;
        assert(k == lenl);
        assert(s.len() == 2 + lenl + n + rest.len());
        assert(s.subrange(2, 2 + k as int) =~= bm);
        assert(bm[0] != 0);
        assert(be_val(bm) == n);
    }
}

/// Reading a unit and writing it back: a run whose front reads as a unit
/// begins with exactly the bytes the writer would emit for that tag and
/// content.  This is the bytes-to-value-to-bytes half of the round trip:
/// canonical output is unique.
pub proof fn lemma_tlv_unparse(s: Seq<u8>)
    requires
        spec_tlv(s) is Unit,
    ensures
        spec_tlv(s) matches TlvShape::Unit { tag, header, length } ==> header + length <= s.len()
            && s.subrange(0, (header + length) as int) == tlv_bytes(
            tag,
            s.subrange(header as int, (header + length) as int),
        ),
{
    let shape = spec_tlv(s);
    if let TlvShape::Unit { tag, header, length } = shape {
        let b = s[1];
        let content = s.subrange(header as int, (header + length) as int);
        if b < 0x80 {
            assert(content.len() == length);
            assert(s.subrange(0, (header + length) as int) =~= tlv_bytes(tag, content));
        } else {
            let k = (b - 0x80) as nat;
            let lb = s.subrange(2, 2 + k as int);
            lemma_be_min_unique(lb);
            assert(content.len() == length);
            assert(be_min(length) == lb);
            assert((0x80 + be_min(length).len()) as u8 == b) by {
                assert(be_min(length).len() == k);
            }
            assert(s.subrange(0, (header + length) as int) =~= tlv_bytes(tag, content));
        }
    }
}

} // verus!
