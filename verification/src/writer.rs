//! The TLV writer: accumulates encoded output, appending one complete unit
//! at a time.  The length is always emitted in DER-minimal form, so every
//! unit written here reads back through the parser unchanged.

use crate::tlv::{be_min, len_octets, p256, tlv_bytes};
use vstd::prelude::*;

verus! {

/// A growable output buffer written strictly append-only.
pub struct Writer {
    data: Vec<u8>,
}

impl View for Writer {
    type V = Seq<u8>;

    /// The bytes written so far.
    closed spec fn view(&self) -> Seq<u8> {
        self.data@
    }
}

impl Writer {
    /// A fresh writer with an empty buffer.
    pub fn new() -> (w: Writer)
        ensures
            w@ == Seq::<u8>::empty(),
    {
        let w = Writer { data: Vec::new() };
        proof {
            assert(w@ =~= Seq::<u8>::empty());
        }
        w
    }

    /// Hands the accumulated bytes out, consuming the writer.
    pub fn into_bytes(self) -> (r: Vec<u8>)
        ensures
            r@ == self@,
    {
        self.data
    }

    /// The accumulated bytes.
    pub fn as_bytes(&self) -> (r: &[u8])
        ensures
            r@ == self@,
    {
        self.data.as_slice()
    }

    /// Appends one complete TLV unit: the tag, the DER-minimal length of the
    /// content, then the content.
    pub fn write_tlv(&mut self, tag: u8, content: &[u8])
        ensures
            final(self)@ == old(self)@ + tlv_bytes(tag, content@),
    {
        let ghost base = self.data@;
        self.data.push(tag);
        let n = content.len();
        if n < 0x80 {
            self.data.push(n as u8);
        } else {
            let mut tmp: Vec<u8> = Vec::new();
            let mut m = n;
            proof {
                assert(p256(8) == 0x1_0000_0000_0000_0000) by {
                    assert(p256(0) == 1);
                    assert(p256(1) == 256 * p256(0));
                    assert(p256(2) == 256 * p256(1));
                    assert(p256(3) == 256 * p256(2));
                    assert(p256(4) == 256 * p256(3));
                    assert(p256(5) == 256 * p256(4));
                    assert(p256(6) == 256 * p256(5));
                    assert(p256(7) == 256 * p256(6));
                    assert(p256(8) == 256 * p256(7));
                }
                crate::tlv::lemma_be_min_len(n as nat, 8);
                assert(be_min(n as nat) =~= be_min(m as nat) + tmp@.reverse());
            }
            while m > 0
                invariant
                    be_min(n as nat) == be_min(m as nat) + tmp@.reverse(),
                    tmp@.len() <= be_min(n as nat).len(),
                decreases m,
            {
                let ghost t0 = tmp@;
                tmp.push((m % 256) as u8);
                proof {
                    assert(tmp@.reverse() =~= seq![(m % 256) as u8] + t0.reverse());
                    assert(be_min(m as nat) == be_min(m as nat / 256) + seq![(m % 256) as u8]);
                    assert(be_min(n as nat) =~= be_min((m / 256) as nat) + tmp@.reverse());
                }
                m = m / 256;
            }
            proof {
                assert(be_min(0) == Seq::<u8>::empty());
                assert(be_min(n as nat) =~= tmp@.reverse());
            }
            self.data.push(0x80 + tmp.len() as u8);
            let ghost mid = self.data@;
            let mut i = tmp.len();
            proof {
                assert(tmp@.reverse().subrange(0, 0) =~= Seq::<u8>::empty());
                assert(mid + Seq::<u8>::empty() =~= mid);
            }
            while i > 0
                invariant
                    i <= tmp@.len(),
                    be_min(n as nat) == tmp@.reverse(),
                    self.data@ == mid + tmp@.reverse().subrange(0, tmp@.len() - i as int),
                decreases i,
            {
                i -= 1;
                let b = tmp[i];
                self.data.push(b);
                proof {
                    let rev = tmp@.reverse();
                    let done = tmp@.len() - i as int;
                    assert(rev[done - 1] == tmp@[i as int]);
                    assert(rev.subrange(0, done) =~= rev.subrange(0, done - 1).push(
                        tmp@[i as int],
                    ));
                    assert(self.data@ =~= mid + rev.subrange(0, done));
                }
            }
            proof {
                assert(tmp@.reverse().subrange(0, tmp@.len() as int) =~= tmp@.reverse());
            }
        }
        let ghost head = self.data@;
        proof {
            assert(head =~= base + seq![tag] + len_octets(content@.len()));
        }
        self.data.extend_from_slice(content);
        proof {
            assert(self.data@ =~= base + tlv_bytes(tag, content@));
        }
    }
}

} // verus!
