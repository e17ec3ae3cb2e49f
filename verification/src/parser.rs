//! The zero-copy TLV parser: a cursor over a borrowed byte slice that hands
//! out one unit at a time, enforcing DER's length canonicality, and a
//! top-level entry that also demands the whole input be consumed.

use crate::errors::{ParseError, ParseErrorKind};
use crate::tlv::{be_val, lemma_be_val_prefix_le, spec_tlv, TlvShape};
use vstd::prelude::*;

verus! {

/// One parsed TLV unit: its tag and borrowed views of its content and of its
/// full bytes, header included.  Never copies; valid while the source buffer
/// is.
#[derive(Debug)]
pub struct Tlv<'a> {
    /// The unit's tag byte.
    pub tag: u8,
    /// The content octets.
    pub content: &'a [u8],
    /// The whole unit: tag, length octets, content.
    pub full: &'a [u8],
}

impl<'a> Tlv<'a> {
    /// The unit's tag byte.
    pub fn tag(&self) -> (r: u8)
        ensures
            r == self.tag,
    {
        self.tag
    }

    /// The content octets.
    pub fn data(&self) -> (r: &'a [u8])
        ensures
            r@ == self.content@,
    {
        self.content
    }

    /// The whole unit's bytes, header included.
    pub fn full_data(&self) -> (r: &'a [u8])
        ensures
            r@ == self.full@,
    {
        self.full
    }
}

/// A read cursor over a borrowed byte slice.  The cursor only moves forward
/// and never past the end.
pub struct Parser<'a> {
    /// The input buffer.
    pub data: &'a [u8],
    /// The read cursor, at most the buffer's length.
    pub pos: usize,
}

impl<'a> Parser<'a> {
    /// The cursor sits within the buffer.
    pub open spec fn wf(&self) -> bool {
        self.pos <= self.data@.len()
    }

    /// The bytes not yet consumed.
    pub open spec fn remaining(&self) -> Seq<u8> {
        self.data@.skip(self.pos as int)
    }

    /// A fresh parser over a whole buffer.
    pub fn new(data: &'a [u8]) -> (p: Parser<'a>)
        ensures
            p.wf(),
            p.data@ == data@,
            p.pos == 0,
            p.remaining() == data@,
    {
        let p = Parser { data, pos: 0 };
        proof {
            assert(p.remaining() =~= data@);
        }
        p
    }

    /// Whether every input byte has been consumed.
    pub fn is_empty(&self) -> (r: bool)
        requires
            self.wf(),
        ensures
            r == (self.remaining().len() == 0),
    {
        self.pos == self.data.len()
    }

    /// The next byte, without consuming it; nothing at the end of input.
    pub fn peek_u8(&self) -> (r: Option<u8>)
        requires
            self.wf(),
        ensures
            match r {
                Some(b) => self.remaining().len() > 0 && b == self.remaining()[0],
                None => self.remaining().len() == 0,
            },
    {
        if self.pos < self.data.len() {
            Some(*vstd::slice::slice_index_get(self.data, self.pos))
        } else {
            None
        }
    }

    /// Reads one TLV unit: the tag byte, then a DER length, then that many
    /// content bytes.  Rejects non-canonical lengths as `InvalidValue` and
    /// anything running past the input as `ShortData`; on failure the cursor
    /// does not move.
    pub fn read_tlv(&mut self) -> (r: Result<Tlv<'a>, ParseError>)
        requires
            old(self).wf(),
        ensures
            final(self).wf(),
            final(self).data == old(self).data,
            match r {
                Ok(tlv) => spec_tlv(old(self).remaining()) matches TlvShape::Unit {
                    tag,
                    header,
                    length,
                } && tlv.tag == tag && final(self).pos == old(self).pos + header + length
                    && tlv.content@ == old(self).remaining().subrange(
                    header as int,
                    (header + length) as int,
                ) && tlv.full@ == old(self).remaining().subrange(0, (header + length) as int),
                Err(e) => final(self).pos == old(self).pos && e.spec_location() == Seq::<
                    Seq<char>,
                >::empty() && ((spec_tlv(old(self).remaining()) is Truncated && e.spec_kind()
                    == ParseErrorKind::ShortData) || (spec_tlv(old(self).remaining())
                    is NonCanonical && e.spec_kind() == ParseErrorKind::InvalidValue)),
            },
    {
        let ghost rem = self.remaining();
        let len = self.data.len();
        if len - self.pos < 2 {
            return Err(ParseError::new(ParseErrorKind::ShortData));
        }
        let tag = *vstd::slice::slice_index_get(self.data, self.pos);
        let b = *vstd::slice::slice_index_get(self.data, self.pos + 1);
        proof {
            assert(rem[0] == tag);
            assert(rem[1] == b);
        }
        if b < 0x80 {
            let clen = b as usize;
            if len - self.pos - 2 < clen {
                return Err(ParseError::new(ParseErrorKind::ShortData));
            }
            let content = vstd::slice::slice_subrange(
                self.data,
                self.pos + 2,
                self.pos + 2 + clen,
            );
            let full = vstd::slice::slice_subrange(self.data, self.pos, self.pos + 2 + clen);
            proof {
                assert(content@ =~= rem.subrange(2, 2 + clen as int));
                assert(full@ =~= rem.subrange(0, 2 + clen as int));
            }
            self.pos = self.pos + 2 + clen;
            return Ok(Tlv { tag, content, full });
        }
        let k = (b - 0x80) as usize;
        if k == 0 || k == 0x7f {
            return Err(ParseError::new(ParseErrorKind::InvalidValue));
        }
        if len - self.pos - 2 < k {
            return Err(ParseError::new(ParseErrorKind::ShortData));
        }
        let ghost lb = rem.subrange(2, 2 + k as int);
        let first = *vstd::slice::slice_index_get(self.data, self.pos + 2);
        proof {
            assert(lb[0] == first);
        }
        if first == 0 {
            return Err(ParseError::new(ParseErrorKind::InvalidValue));
        }
        let avail = len - self.pos - 2 - k;
        let mut n: usize = 0;
        let mut j: usize = 0;
        let mut overflow = false;
        proof {
            assert(lb.subrange(0, 0) =~= Seq::<u8>::empty());
        }
        while j < k
            invariant
                0 <= j <= k,
                self.pos + 2 + k <= self.data@.len(),
                self.data@.len() <= usize::MAX,
                lb == self.data@.skip(self.pos as int).subrange(2, 2 + k as int),
                rem == self.data@.skip(self.pos as int),
                avail == self.data@.len() - self.pos - 2 - k,
                !overflow ==> n as nat == be_val(lb.subrange(0, j as int)),
                overflow ==> be_val(lb.subrange(0, j as int)) > avail && be_val(
                    lb.subrange(0, j as int),
                ) >= 0x80,
            decreases k - j,
        {
            let byte = *vstd::slice::slice_index_get(self.data, self.pos + 2 + j);
            proof {
                assert(lb[j as int] == byte);
                let t = lb.subrange(0, j as int + 1);
                assert(t.drop_last() =~= lb.subrange(0, j as int));
                assert(t.last() == byte);
            }
            if !overflow {
                let stepped = match n.checked_mul(256) {
                    Some(m) => m.checked_add(byte as usize),
                    None => None,
                };
                match stepped {
                    Some(v) => {
                        n = v;
                    },
                    None => {
                        proof {
                            assert(be_val(lb.subrange(0, j as int + 1)) == n as nat * 256
                                + byte);
                            assert(n as nat * 256 + byte > usize::MAX);
                        }
                        overflow = true;
                    },
                }
            } else {
                proof {
                    assert(be_val(lb.subrange(0, j as int + 1)) >= be_val(
                        lb.subrange(0, j as int),
                    )) by (nonlinear_arith)
                        requires
                            be_val(lb.subrange(0, j as int + 1)) == be_val(
                                lb.subrange(0, j as int),
                            ) * 256 + (lb.subrange(0, j as int + 1)).last(),
                    ;
                }
            }
            j += 1;
        }
        proof {
            assert(lb.subrange(0, k as int) =~= lb);
        }
        if overflow {
            proof {
                lemma_be_val_prefix_le(lb, k as int);
            }
            return Err(ParseError::new(ParseErrorKind::ShortData));
        }
        if n < 0x80 {
            return Err(ParseError::new(ParseErrorKind::InvalidValue));
        }
        if n > avail {
            return Err(ParseError::new(ParseErrorKind::ShortData));
        }
        let h = 2 + k;
        let content = vstd::slice::slice_subrange(self.data, self.pos + h, self.pos + h + n);
        let full = vstd::slice::slice_subrange(self.data, self.pos, self.pos + h + n);
        proof {
            assert(content@ =~= rem.subrange(h as int, h as int + n as int));
            assert(full@ =~= rem.subrange(0, h as int + n as int));
        }
        self.pos = self.pos + h + n;
        Ok(Tlv { tag, content, full })
    }

    /// Reads one TLV unit and requires its tag to be the expected one;
    /// a unit bearing any other tag is `UnexpectedTag` with that tag, and
    /// consumes nothing.
    pub fn read_element(&mut self, expected: u8) -> (r: Result<Tlv<'a>, ParseError>)
        requires
            old(self).wf(),
        ensures
            final(self).wf(),
            final(self).data == old(self).data,
            match r {
                Ok(tlv) => spec_tlv(old(self).remaining()) matches TlvShape::Unit {
                    tag,
                    header,
                    length,
                } && tag == expected && tlv.tag == tag && final(self).pos == old(self).pos + header
                    + length && tlv.content@ == old(self).remaining().subrange(
                    header as int,
                    (header + length) as int,
                ) && tlv.full@ == old(self).remaining().subrange(0, (header + length) as int),
                Err(e) => final(self).pos == old(self).pos && e.spec_location() == Seq::<
                    Seq<char>,
                >::empty() && ((spec_tlv(old(self).remaining()) is Truncated && e.spec_kind()
                    == ParseErrorKind::ShortData) || (spec_tlv(old(self).remaining())
                    is NonCanonical && e.spec_kind() == ParseErrorKind::InvalidValue) || (spec_tlv(
                    old(self).remaining(),
                ) matches TlvShape::Unit { tag, .. } && tag != expected && e.spec_kind()
                    == ParseErrorKind::UnexpectedTag { actual: tag })),
            },
    {
        let saved_pos = self.pos;
        let tlv = match self.read_tlv() {
            Ok(t) => t,
            Err(e) => {
                return Err(e);
            },
        };
        if tlv.tag != expected {
            let actual = tlv.tag;
            self.pos = saved_pos;
            return Err(ParseError::new(ParseErrorKind::UnexpectedTag { actual }));
        }
        Ok(tlv)
    }
}

/// Reads one TLV unit that must span the whole input: DER demands exact
/// consumption, so trailing bytes are `ExtraData`.
pub fn parse_tlv(data: &[u8]) -> (r: Result<Tlv<'_>, ParseError>)
    ensures
        match r {
            Ok(tlv) => spec_tlv(data@) matches TlvShape::Unit { tag, header, length } && header
                + length == data@.len() && tlv.tag == tag && tlv.content@ == data@.subrange(
                header as int,
                (header + length) as int,
            ) && tlv.full@ == data@,
            Err(e) => e.spec_location() == Seq::<Seq<char>>::empty() && ((spec_tlv(data@)
                is Truncated && e.spec_kind() == ParseErrorKind::ShortData) || (spec_tlv(data@)
                is NonCanonical && e.spec_kind() == ParseErrorKind::InvalidValue) || (spec_tlv(
                data@,
            ) matches TlvShape::Unit { header, length, .. } && header + length < data@.len()
                && e.spec_kind() == ParseErrorKind::ExtraData)),
        },
{
    let mut p = Parser::new(data);
    let tlv = match p.read_tlv() {
        Ok(t) => t,
        Err(e) => {
            return Err(e);
        },
    };
    if !p.is_empty() {
        return Err(ParseError::new(ParseErrorKind::ExtraData));
    }
    proof {
        assert(data@.subrange(0, data@.len() as int) =~= data@);
    }
    Ok(tlv)
}

} // verus!
