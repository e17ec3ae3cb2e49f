//! Decimal text for unsigned integers: the spec-level form of the digits a
//! dotted OID string holds, a writer that appends them to a `String`, and a
//! reader that parses one arc the way `str::parse::<u32>` does (an optional
//! leading `+`, then decimal digits, value below 2^32).

use vstd::prelude::*;
use vstd::string::*;

verus! {

/// Whether a character is a decimal digit.
pub open spec fn is_dec_digit(c: char) -> bool {
    48 <= c as int <= 57
}

/// The numeric value of one decimal digit character.
pub open spec fn char_val(c: char) -> nat
    recommends
        is_dec_digit(c),
{
    ((c as int) - 48) as nat
}

/// Whether every character of the sequence is a decimal digit.
pub open spec fn all_dec_digits(q: Seq<char>) -> bool {
    forall|i: int| 0 <= i < q.len() ==> is_dec_digit(#[trigger] q[i])
}

/// The number a digit sequence denotes, most significant digit first.
pub open spec fn digits_val(q: Seq<char>) -> nat
    decreases q.len(),
{
    if q.len() == 0 {
        0
    } else {
        digits_val(q.drop_last()) * 10 + char_val(q.last())
    }
}

/// The number a digit run denotes, when it is non-empty, all digits, and
/// below 2^32.
pub open spec fn digits_result(q: Seq<char>) -> Option<nat> {
    if q.len() > 0 && all_dec_digits(q) && digits_val(q) < 0x1_0000_0000 {
        Some(digits_val(q))
    } else {
        None
    }
}

/// What `str::parse::<u32>` makes of one dotted-string part: an optional
/// leading `+`, then at least one digit, denoting a value below 2^32.
pub open spec fn spec_parse_u32(p: Seq<char>) -> Option<nat> {
    if p.len() > 0 && p[0] == '+' {
        digits_result(p.drop_first())
    } else {
        digits_result(p)
    }
}

/// The character of one decimal digit value.
pub open spec fn dec_digit(d: nat) -> char
    recommends
        d < 10,
{
    if d == 0 {
        '0'
    } else if d == 1 {
        '1'
    } else if d == 2 {
        '2'
    } else if d == 3 {
        '3'
    } else if d == 4 {
        '4'
    } else if d == 5 {
        '5'
    } else if d == 6 {
        '6'
    } else if d == 7 {
        '7'
    } else if d == 8 {
        '8'
    } else {
        '9'
    }
}

/// The decimal text of a number: most significant digit first, no sign, no
/// leading zero (zero itself is the single digit `0`).
pub open spec fn spec_decimal(n: nat) -> Seq<char>
    decreases n,
{
    if n < 10 {
        seq![dec_digit(n)]
    } else {
        spec_decimal(n / 10) + seq![dec_digit(n % 10)]
    }
}

/// Appends the character of one digit value.
fn push_digit(out: &mut String, d: u8)
    requires
        d < 10,
    ensures
        final(out)@ == old(out)@ + seq![dec_digit(d as nat)],
{
    let ghost o = old(out)@;
    if d == 0 {
        out.append("0");
        proof {
            reveal_strlit("0");
            assert(out@ =~= o + seq![dec_digit(d as nat)]);
        }
    } else if d == 1 {
        out.append("1");
        proof {
            reveal_strlit("1");
            assert(out@ =~= o + seq![dec_digit(d as nat)]);
        }
    } else if d == 2 {
        out.append("2");
        proof {
            reveal_strlit("2");
            assert(out@ =~= o + seq![dec_digit(d as nat)]);
        }
    } else if d == 3 {
        out.append("3");
        proof {
            reveal_strlit("3");
            assert(out@ =~= o + seq![dec_digit(d as nat)]);
        }
    } else if d == 4 {
        out.append("4");
        proof {
            reveal_strlit("4");
            assert(out@ =~= o + seq![dec_digit(d as nat)]);
        }
    } else if d == 5 {
        out.append("5");
        proof {
            reveal_strlit("5");
            assert(out@ =~= o + seq![dec_digit(d as nat)]);
        }
    } else if d == 6 {
        out.append("6");
        proof {
            reveal_strlit("6");
            assert(out@ =~= o + seq![dec_digit(d as nat)]);
        }
    } else if d == 7 {
        out.append("7");
        proof {
            reveal_strlit("7");
            assert(out@ =~= o + seq![dec_digit(d as nat)]);
        }
    } else if d == 8 {
        out.append("8");
        proof {
            reveal_strlit("8");
            assert(out@ =~= o + seq![dec_digit(d as nat)]);
        }
    } else {
        out.append("9");
        proof {
            reveal_strlit("9");
            assert(out@ =~= o + seq![dec_digit(d as nat)]);
        }
    }
}

/// Appends the decimal text of a number.
pub fn push_decimal(out: &mut String, n: u32)
    ensures
        final(out)@ == old(out)@ + spec_decimal(n as nat),
    decreases n,
{
    if n >= 10 {
        push_decimal(out, n / 10);
        push_digit(out, (n % 10) as u8);
        proof {
            assert(out@ =~= old(out)@ + spec_decimal(n as nat));
        }
    } else {
        push_digit(out, n as u8);
    }
}

/// A digit sequence grows in value as digits are appended.
proof fn lemma_digits_val_push_ge(q: Seq<char>, c: char)
    ensures
        digits_val(q.push(c)) >= digits_val(q),
{
    assert(q.push(c).drop_last() =~= q);
    assert(q.push(c).last() == c);
}

/// Every prefix of a digit sequence denotes no more than the whole.
proof fn lemma_digits_val_prefix_le(q: Seq<char>, j: int)
    requires
        0 <= j <= q.len(),
    ensures
        digits_val(q.subrange(0, j)) <= digits_val(q),
    decreases q.len() - j,
{
    if j < q.len() {
        lemma_digits_val_prefix_le(q, j + 1);
        assert(q.subrange(0, j + 1) =~= q.subrange(0, j).push(q[j]));
        lemma_digits_val_push_ge(q.subrange(0, j), q[j]);
    } else {
        assert(q.subrange(0, j) =~= q);
    }
}

/// Parses `s[start..end]` as `str::parse::<u32>` would.
pub fn parse_u32_range(s: &str, start: usize, end: usize) -> (r: Option<u32>)
    requires
        start <= end <= s@.len(),
    ensures
        match r {
            Some(v) => spec_parse_u32(s@.subrange(start as int, end as int)) == Some(v as nat),
            None => spec_parse_u32(s@.subrange(start as int, end as int)) is None,
        },
{
    let ghost p = s@.subrange(start as int, end as int);
    let mut i = start;
    if i < end && s.get_char(i) == '+' {
        i += 1;
    }
    let ghost q = s@.subrange(i as int, end as int);
    proof {
        if i > start {
            assert(p.drop_first() =~= q);
        } else {
            assert(p =~= q);
        }
        assert(spec_parse_u32(p) == digits_result(q));
    }
    if i == end {
        return None;
    }
    let dstart = i;
    let mut acc: u32 = 0;
    proof {
        assert(s@.subrange(dstart as int, dstart as int) =~= Seq::<char>::empty());
    }
    while i < end
        invariant
            dstart <= i <= end <= s@.len(),
            dstart < end,
            q == s@.subrange(dstart as int, end as int),
            spec_parse_u32(p) == digits_result(q),
            p == s@.subrange(start as int, end as int),
            start <= end,
            all_dec_digits(s@.subrange(dstart as int, i as int)),
            acc == digits_val(s@.subrange(dstart as int, i as int)),
        decreases end - i,
    {
        let ghost done = s@.subrange(dstart as int, i as int);
        let c = s.get_char(i);
        let cv = c as u32;
        if cv < 48 || cv > 57 {
            proof {
                assert(q[i - dstart] == c);
                assert(!is_dec_digit(q[i - dstart]));
            }
            return None;
        }
        let d = cv - 48;
        let overflowed: bool;
        match acc.checked_mul(10) {
            Some(acc10) => {
                match acc10.checked_add(d) {
                    Some(x) => {
                        acc = x;
                        overflowed = false;
                    },
                    None => {
                        overflowed = true;
                    },
                }
            },
            None => {
                overflowed = true;
            },
        }
        if overflowed {
            proof {
                lemma_overflow_means_large(
                    s@,
                    dstart as int,
                    i as int,
                    end as int,
                    digits_val(done),
                    char_val(c),
                );
            }
            return None;
        }
        i += 1;
        proof {
            assert(s@.subrange(dstart as int, i as int) =~= done.push(c));
            assert(done.push(c).drop_last() =~= done);
        }
    }
    proof {
        assert(s@.subrange(dstart as int, end as int) =~= q);
    }
    Some(acc)
}

/// If appending one digit overflows the accumulator, the whole digit run
/// denotes a value of at least 2^32.
proof fn lemma_overflow_means_large(s: Seq<char>, qs: int, i: int, end: int, acc: nat, d: nat)
    requires
        0 <= qs <= i < end <= s.len(),
        acc == digits_val(s.subrange(qs, i)),
        d == char_val(s[i]),
        acc * 10 + d >= 0x1_0000_0000,
    ensures
        digits_val(s.subrange(qs, end)) >= 0x1_0000_0000,
{
    let t = s.subrange(qs, i).push(s[i]);
    assert(s.subrange(qs, i + 1) =~= t);
    assert(t.drop_last() =~= s.subrange(qs, i));
    assert(t.last() == s[i]);
    assert(digits_val(s.subrange(qs, i + 1)) == acc * 10 + d);
    let q = s.subrange(qs, end);
    assert(q.subrange(0, i + 1 - qs) =~= s.subrange(qs, i + 1));
    lemma_digits_val_prefix_le(q, i + 1 - qs);
}

} // verus!
