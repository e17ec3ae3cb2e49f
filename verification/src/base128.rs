//! Base-128 variable-length integers: big-endian groups of seven bits, every
//! group but the last carrying a continuation bit.  An OBJECT IDENTIFIER's
//! content octets are a run of such groups, one per arc.

use crate::errors::{ParseError, ParseErrorKind};
use vstd::prelude::*;

verus! {

/// 128 raised to a power.
pub open spec fn p128(k: nat) -> nat
    decreases k,
{
    if k == 0 {
        1
    } else {
        128 * p128((k - 1) as nat)
    }
}

/// The continuation bytes of a base-128 encoding: the seven-bit groups of
/// `m`, big-endian and minimal, each with the continuation bit set.
pub open spec fn b128_cont(m: nat) -> Seq<u8>
    decreases m,
{
    if m == 0 {
        Seq::empty()
    } else {
        b128_cont(m / 128) + seq![(128 + m % 128) as u8]
    }
}

/// The minimal base-128 encoding of a number: its high groups as
/// continuation bytes, then the lowest seven bits without the bit.
pub open spec fn b128(n: nat) -> Seq<u8> {
    b128_cont(n / 128) + seq![(n % 128) as u8]
}

/// Reads one base-128 group from the front of `s`, continuing a read that
/// has already taken `cnt` bytes accumulating to `acc`.  Yields the total
/// byte count and the value, or nothing when the group is truncated, runs
/// past four continuation bytes, or exceeds the 32-bit accumulator.
pub open spec fn group_rec(s: Seq<u8>, acc: nat, cnt: nat) -> Option<(nat, nat)>
    decreases s.len(),
{
    if s.len() == 0 {
        None
    } else {
        let b = s[0];
        let acc2 = (acc * 128 + (b & 0x7f)) as nat;
        if b & 0x80 == 0 {
            if acc2 < 0x1_0000_0000 {
                Some(((cnt + 1) as nat, acc2))
            } else {
                None
            }
        } else if cnt >= 4 {
            None
        } else {
            group_rec(s.drop_first(), acc2, (cnt + 1) as nat)
        }
    }
}

/// The first base-128 group of `s`: its byte count and its value.
pub open spec fn group_split(s: Seq<u8>) -> Option<(nat, nat)> {
    group_rec(s, 0, 0)
}

/// The small powers of 128 written out.
pub proof fn lemma_p128_values()
    ensures
        p128(0) == 1,
        p128(1) == 128,
        p128(2) == 0x4000,
        p128(3) == 0x20_0000,
        p128(4) == 0x1000_0000,
{
    assert(p128(0) == 1);
    assert(p128(1) == 128 * p128(0));
    assert(p128(2) == 128 * p128(1));
    assert(p128(3) == 128 * p128(2));
    assert(p128(4) == 128 * p128(3));
}

/// A group read takes at least one and at most all remaining bytes, and its
/// value fits 32 bits.
pub proof fn lemma_group_rec_bounds(s: Seq<u8>, acc: nat, cnt: nat)
    ensures
        group_rec(s, acc, cnt) matches Some(kv) ==> cnt < kv.0 && kv.0 - cnt <= s.len() && kv.1
            < 0x1_0000_0000,
    decreases s.len(),
{
    if s.len() > 0 {
        let b = s[0];
        if b & 0x80 != 0 && cnt < 4 {
            lemma_group_rec_bounds(s.drop_first(), (acc * 128 + (b & 0x7f)) as nat, (cnt + 1) as nat);
        }
    }
}

/// Continuation bytes fold into the accumulator: reading the encoding of `m`
/// as continuation bytes and then a tail is reading the tail with `m` mixed
/// into the accumulator.
proof fn lemma_group_rec_cont(m: nat, tail: Seq<u8>, acc: nat, cnt: nat)
    requires
        cnt + b128_cont(m).len() <= 4,
        tail.len() > 0,
    ensures
        group_rec(b128_cont(m) + tail, acc, cnt) == group_rec(
            tail,
            acc * p128(b128_cont(m).len()) + m,
            cnt + b128_cont(m).len(),
        ),
    decreases m,
{
    if m == 0 {
        assert(b128_cont(0) + tail =~= tail);
        assert(b128_cont(m).len() == 0);
        assert(p128(0) == 1);
        let l0 = b128_cont(m).len();
        assert(p128(l0) == 1);
        assert(acc * p128(l0) == acc) by (nonlinear_arith)
            requires p128(l0) == 1;
        assert(acc * p128(b128_cont(m).len()) + m == acc);
        assert(cnt + b128_cont(m).len() == cnt);
        assert(group_rec(b128_cont(m) + tail, acc, cnt) == group_rec(tail, acc, cnt));
    } else {
        let cb = (128 + m % 128) as u8;
        let tail2 = seq![cb] + tail;
        let ll = b128_cont(m / 128).len();
        assert(b128_cont(m) + tail =~= b128_cont(m / 128) + tail2);
        lemma_group_rec_cont(m / 128, tail2, acc, cnt);
        let acc1 = acc * p128(ll) + m / 128;
        assert(group_rec(b128_cont(m) + tail, acc, cnt) == group_rec(tail2, acc1, cnt + ll));
        assert(cb & 0x80 != 0 && cb & 0x7f == cb - 128) by (bit_vector)
            requires 128 <= cb;
        assert(tail2[0] == cb);
        assert(tail2.drop_first() =~= tail);
        assert(cnt + ll < 4);
        assert(group_rec(tail2, acc1, cnt + ll) == group_rec(
            tail,
            acc1 * 128 + (m % 128),
            cnt + ll + 1,
        ));
        assert(acc1 * 128 + m % 128 == acc * p128(ll + 1) + m) by (nonlinear_arith)
            requires
                acc1 == acc * p128(ll) + m / 128,
                m == (m / 128) * 128 + m % 128,
                p128(ll + 1) == 128 * p128(ll),
        ;
        assert(p128(ll + 1) == 128 * p128(ll));
        assert(b128_cont(m).len() == ll + 1);
        assert(group_rec(b128_cont(m) + tail, acc, cnt) == group_rec(
            tail,
            (acc1 * 128 + (m % 128)) as nat,
            cnt + ll + 1,
        ));
        assert(acc * p128(b128_cont(m).len()) + m == acc1 * 128 + m % 128);
        assert(cnt + b128_cont(m).len() == cnt + ll + 1);
    }
}

/// The minimal encoding is never longer than the power bound allows.
pub proof fn lemma_b128_cont_len(m: nat, j: nat)
    requires
        m < p128(j),
    ensures
        b128_cont(m).len() <= j,
    decreases j,
{
    if m > 0 {
        assert(j > 0);
        assert(m / 128 < p128((j - 1) as nat)) by (nonlinear_arith)
            requires m < p128(j), p128(j) == 128 * p128((j - 1) as nat), m > 0,
        ;
        lemma_b128_cont_len((m / 128) as nat, (j - 1) as nat);
    }
}

/// Reading the front of a buffer that starts with the minimal encoding of a
/// 32-bit value yields exactly that value and consumes exactly the encoding.
pub proof fn lemma_b128_reads_back(n: nat, tail: Seq<u8>)
    requires
        n < 0x1_0000_0000,
    ensures
        group_split(b128(n) + tail) == Some::<(nat, nat)>((b128(n).len(), n)),
        1 <= b128(n).len() <= 5,
{
    let lb = (n % 128) as u8;
    let tail2 = seq![lb] + tail;
    let ll = b128_cont(n / 128).len();
    lemma_p128_values();
    assert(n / 128 < 0x1000_0000);
    lemma_b128_cont_len(n / 128, 4);
    assert(b128(n) + tail =~= b128_cont(n / 128) + tail2);
    lemma_group_rec_cont(n / 128, tail2, 0, 0);
    assert(lb & 0x80 == 0 && lb & 0x7f == lb) by (bit_vector)
        requires lb < 128;
    assert(tail2[0] == lb);
    assert((n / 128) * 128 + n % 128 == n);
    assert(group_rec(tail2, 0 * p128(ll) + n / 128, ll) == Some::<(nat, nat)>(((ll + 1) as nat, n)));
    assert(b128(n).len() == ll + 1);
}

/// Reads one base-128 group from `data` at `start`, as a value and the
/// position just past the group.
pub fn read_base128_int(data: &[u8], start: usize) -> (r: Result<(u32, usize), ParseError>)
    requires
        start <= data@.len(),
    ensures
        match group_split(data@.skip(start as int)) {
            Some(kv) => r matches Ok(p) && p.0 as nat == kv.1 && p.1 as nat == start + kv.0,
            None => r matches Err(e) && e.spec_kind() == ParseErrorKind::InvalidValue
                && e.spec_location() == Seq::<Seq<char>>::empty(),
        },
{
    let ghost whole = data@.skip(start as int);
    let mut i = start;
    let mut acc: u32 = 0;
    let mut cnt: usize = 0;
    while i < data.len()
        invariant
            start <= i <= data@.len(),
            cnt == i - start,
            cnt <= 4,
            (acc as nat) < p128(cnt as nat),
            whole == data@.skip(start as int),
            group_split(whole) == group_rec(data@.skip(i as int), acc as nat, cnt as nat),
        decreases data@.len() - i,
    {
        let ghost rest = data@.skip(i as int);
        let b = *vstd::slice::slice_index_get(data, i);
        proof {
            assert(rest[0] == data@[i as int]);
            assert(rest.drop_first() =~= data@.skip(i as int + 1));
            assert(b & 0x7f < 128 && (b & 0x80 == 0 ==> b & 0x7f == b)) by (bit_vector);
            lemma_p128_values();
        }
        let low = b & 0x7f;
        if b & 0x80 == 0 {
            if acc >= 0x0200_0000 {
                proof {
                    assert(acc as nat * 128 + (b & 0x7f) >= 0x1_0000_0000) by (nonlinear_arith)
                        requires acc as nat >= 0x0200_0000;
                }
                return Err(ParseError::new(ParseErrorKind::InvalidValue));
            }
            proof {
                assert(acc as nat * 128 + (b & 0x7f) < 0x1_0000_0000) by (nonlinear_arith)
                    requires acc as nat <= 0x01ff_ffff, b & 0x7f < 128;
            }
            return Ok((acc * 128 + low as u32, i + 1));
        }
        if cnt >= 4 {
            return Err(ParseError::new(ParseErrorKind::InvalidValue));
        }
        proof {
            assert(acc as nat * 128 + (b & 0x7f) < p128(cnt as nat + 1)) by (nonlinear_arith)
                requires
                    (acc as nat) < p128(cnt as nat),
                    b & 0x7f < 128,
                    p128(cnt as nat + 1) == 128 * p128(cnt as nat),
            ;
        }
        acc = acc * 128 + low as u32;
        cnt += 1;
        i += 1;
    }
    proof {
        assert(data@.skip(i as int).len() == 0);
    }
    Err(ParseError::new(ParseErrorKind::InvalidValue))
}

/// Appends the continuation bytes of a base-128 encoding.
fn push_b128_cont(out: &mut Vec<u8>, m: u32)
    ensures
        final(out)@ == old(out)@ + b128_cont(m as nat),
    decreases m,
{
    if m == 0 {
        proof {
            assert(out@ =~= out@ + b128_cont(0));
        }
    } else {
        push_b128_cont(out, m / 128);
        out.push(128 + (m % 128) as u8);
        proof {
            assert(out@ =~= old(out)@ + b128_cont(m as nat));
        }
    }
}

/// Appends the minimal base-128 encoding of a value.
pub fn write_base128_int(out: &mut Vec<u8>, n: u32)
    ensures
        final(out)@ == old(out)@ + b128(n as nat),
{
    push_b128_cont(out, n / 128);
    out.push((n % 128) as u8);
    proof {
        assert(out@ =~= old(out)@ + b128(n as nat));
    }
}

} // verus!
