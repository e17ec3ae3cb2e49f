//! ASN.1 `OBJECT IDENTIFIER` values, stored as their DER content octets in a
//! fixed-capacity buffer.
//!
//! An `ObjectIdentifier` always holds a byte run that splits into well-formed
//! base-128 arc groups; the capacity bound and that shape are a type
//! invariant, so a value that exists can always be read back arc by arc.
//! Equality is structural over the stored DER bytes: since the DER encoding
//! of an arc sequence is canonical, two values are equal exactly when their
//! arc sequences are.

use crate::base128::{
    b128, group_split, lemma_b128_reads_back, lemma_group_rec_bounds, read_base128_int,
    write_base128_int,
};
use crate::decimal::{push_decimal, spec_decimal, spec_parse_u32};
use crate::errors::{ParseError, ParseErrorKind};
use vstd::prelude::*;
use vstd::string::*;

verus! {

/// Capacity of the inline buffer, in bytes of DER content.
pub const MAX_OID_LENGTH: usize = 63;

/// Whether a byte run splits completely into well-formed base-128 groups.
pub open spec fn oid_wf_from(s: Seq<u8>) -> bool
    decreases s.len(),
    via oid_wf_from_dec
{
    if s.len() == 0 {
        true
    } else {
        match group_split(s) {
            Option::None => false,
            Option::Some(kv) => oid_wf_from(s.skip(kv.0 as int)),
        }
    }
}

#[via_fn]
proof fn oid_wf_from_dec(s: Seq<u8>) {
    lemma_group_rec_bounds(s, 0, 0);
}

/// The arc values a well-formed byte run decodes to, group by group.
pub open spec fn arcs_from(s: Seq<u8>) -> Seq<nat>
    decreases s.len(),
    via arcs_from_dec
{
    if s.len() == 0 {
        Seq::empty()
    } else {
        match group_split(s) {
            Option::None => Seq::empty(),
            Option::Some(kv) => seq![kv.1] + arcs_from(s.skip(kv.0 as int)),
        }
    }
}

#[via_fn]
proof fn arcs_from_dec(s: Seq<u8>) {
    lemma_group_rec_bounds(s, 0, 0);
}

/// Well-formed OID content octets: non-empty, within capacity, and splitting
/// completely into base-128 groups.
pub open spec fn oid_bytes_wf(s: Seq<u8>) -> bool {
    1 <= s.len() <= MAX_OID_LENGTH && oid_wf_from(s)
}

/// The DER content octets of an arc sequence, one base-128 group per arc.
pub open spec fn arcs_der(arcs: Seq<nat>) -> Seq<u8>
    decreases arcs.len(),
{
    if arcs.len() == 0 {
        Seq::empty()
    } else {
        b128(arcs[0]) + arcs_der(arcs.drop_first())
    }
}

/// Index of the first `.` of a character run, or its length when none.
pub open spec fn dot_pos(t: Seq<char>) -> nat
    decreases t.len(),
{
    if t.len() == 0 {
        0
    } else if t[0] == '.' {
        0
    } else {
        1 + dot_pos(t.drop_first())
    }
}

/// The arcs of a dotted string: the runs between `.` separators, each parsed
/// as a 32-bit arc, or nothing when any part fails to parse.
pub open spec fn spec_arcs_text(t: Seq<char>) -> Option<Seq<nat>>
    decreases t.len(),
{
    let e = dot_pos(t);
    if e >= t.len() {
        match spec_parse_u32(t) {
            Option::None => None,
            Option::Some(v) => Some(seq![v]),
        }
    } else {
        match spec_parse_u32(t.take(e as int)) {
            Option::None => None,
            Option::Some(v) => match spec_arcs_text(t.skip(e as int + 1)) {
                Option::None => None,
                Option::Some(rest) => Some(seq![v] + rest),
            },
        }
    }
}

/// What a dotted string denotes: at least two arcs, the first at most 2, the
/// second below 40 unless the first is 2, the first two arcs combined as
/// `40 * first + second` within 32 bits, and the whole encoding within
/// capacity; then the DER content octets of the combined arc and the rest.
pub open spec fn spec_from_string(s: Seq<char>) -> Option<Seq<u8>> {
    match spec_arcs_text(s) {
        Option::None => None,
        Option::Some(arcs) => {
            if arcs.len() < 2 {
                None
            } else if arcs[0] > 2 || (arcs[0] < 2 && arcs[1] >= 40) {
                None
            } else if 40 * arcs[0] + arcs[1] >= 0x1_0000_0000 {
                None
            } else {
                let der = b128(40 * arcs[0] + arcs[1]) + arcs_der(arcs.skip(2));
                if der.len() <= MAX_OID_LENGTH {
                    Some(der)
                } else {
                    None
                }
            }
        },
    }
}

/// The dotted text of the first decoded arc: `first.second`, where the
/// combined value below 80 splits as quotient and remainder by 40, and any
/// larger value belongs to first arc 2.
pub open spec fn head_str(a: nat) -> Seq<char> {
    if a < 80 {
        spec_decimal(a / 40) + seq!['.'] + spec_decimal(a % 40)
    } else {
        spec_decimal(2) + seq!['.'] + spec_decimal((a - 80) as nat)
    }
}

/// The remaining arcs' dotted text: a `.` then the decimal of each.
pub open spec fn tail_str(arcs: Seq<nat>) -> Seq<char>
    decreases arcs.len(),
{
    if arcs.len() == 0 {
        Seq::empty()
    } else {
        seq!['.'] + spec_decimal(arcs[0]) + tail_str(arcs.drop_first())
    }
}

/// The dotted text of well-formed OID content octets.
pub open spec fn spec_oid_string(s: Seq<u8>) -> Seq<char> {
    head_str(arcs_from(s)[0]) + tail_str(arcs_from(s).drop_first())
}

/// Appending one arc's group to an arc-run encoding.
proof fn lemma_arcs_der_push(arcs: Seq<nat>, v: nat)
    ensures
        arcs_der(arcs.push(v)) == arcs_der(arcs) + b128(v),
    decreases arcs.len(),
{
    if arcs.len() == 0 {
        assert(arcs.push(v).drop_first() =~= Seq::<nat>::empty());
        assert(arcs.push(v)[0] == v);
        assert(arcs_der(Seq::<nat>::empty()) == Seq::<u8>::empty());
        assert(arcs_der(arcs.push(v)) == b128(v) + Seq::<u8>::empty());
        assert(arcs_der(arcs) == Seq::<u8>::empty());
        assert(arcs_der(arcs.push(v)) =~= arcs_der(arcs) + b128(v));
    } else {
        assert(arcs.push(v).drop_first() =~= arcs.drop_first().push(v));
        assert(arcs.push(v)[0] == arcs[0]);
        lemma_arcs_der_push(arcs.drop_first(), v);
        assert(arcs_der(arcs.push(v)) == b128(arcs[0]) + (arcs_der(arcs.drop_first()) + b128(v)));
        assert(arcs_der(arcs.push(v)) =~= arcs_der(arcs) + b128(v));
    }
}

/// The encoding of 32-bit arcs splits back into well-formed groups.
proof fn lemma_arcs_der_wf(arcs: Seq<nat>)
    requires
        forall|i: int| 0 <= i < arcs.len() ==> #[trigger] arcs[i] < 0x1_0000_0000,
    ensures
        oid_wf_from(arcs_der(arcs)),
    decreases arcs.len(),
{
    if arcs.len() > 0 {
        let rest = arcs_der(arcs.drop_first());
        lemma_b128_reads_back(arcs[0], rest);
        lemma_arcs_der_wf(arcs.drop_first());
        assert((b128(arcs[0]) + rest).skip(b128(arcs[0]).len() as int) =~= rest);
    }
}

/// An ASN.1 `OBJECT IDENTIFIER`, held as its DER content octets.
#[derive(Debug, Hash)]
pub struct ObjectIdentifier {
    der_encoded: Vec<u8>,
}

impl View for ObjectIdentifier {
    type V = Seq<u8>;

    /// The stored DER content octets.
    closed spec fn view(&self) -> Seq<u8> {
        self.der_encoded@
    }
}

impl ObjectIdentifier {
    /// The stored bytes are always well-formed OID content within capacity.
    #[verifier::type_invariant]
    spec fn type_inv(self) -> bool {
        oid_bytes_wf(self@)
    }

    /// Parses an OID from a dotted string such as `1.2.840.113549`: nothing
    /// on a malformed or over-long input, otherwise the value whose content
    /// octets `spec_from_string` gives.
    #[verifier::rlimit(60)]
    pub fn from_string(oid: &str) -> (r: Option<ObjectIdentifier>)
        ensures
            match r {
                Some(o) => spec_from_string(oid@) == Some(o@),
                None => spec_from_string(oid@) is None,
            },
    {
        let n = oid.unicode_len();
        let e0 = find_dot(oid, 0, n);
        proof {
            assert(oid@.skip(0) =~= oid@);
            assert(oid@.subrange(0, e0 as int) =~= oid@.take(dot_pos(oid@) as int));
        }
        let v0 = match crate::decimal::parse_u32_range(oid, 0, e0) {
            Some(v) => v,
            None => {
                proof {
                    if dot_pos(oid@) >= oid@.len() {
                        assert(oid@.take(dot_pos(oid@) as int) =~= oid@);
                    }
                }
                return None;
            },
        };
        if e0 == n {
            proof {
                assert(oid@.subrange(0, n as int) =~= oid@);
                assert(spec_arcs_text(oid@) == Some(seq![v0 as nat]));
            }
            return None;
        }
        let e1 = find_dot(oid, e0 + 1, n);
        proof {
            let t1 = oid@.skip(e0 as int + 1);
            assert(oid@.subrange(e0 as int + 1, e1 as int) =~= t1.take(dot_pos(t1) as int));
            assert(oid@.subrange(e0 as int + 1, n as int) =~= t1);
        }
        let v1 = match crate::decimal::parse_u32_range(oid, e0 + 1, e1) {
            Some(v) => v,
            None => {
                proof {
                    let t1 = oid@.skip(e0 as int + 1);
                    if dot_pos(t1) >= t1.len() {
                        assert(t1.take(dot_pos(t1) as int) =~= t1);
                    }
                    assert(spec_arcs_text(t1) is None);
                    assert(dot_pos(oid@) == e0);
                    assert(spec_arcs_text(oid@) is None);
                }
                return None;
            },
        };
        let ghost arcs0: Seq<nat> = seq![v0 as nat, v1 as nat];
        proof {
            let t1 = oid@.skip(e0 as int + 1);
            if e1 == n {
                assert(spec_arcs_text(t1) == Some(seq![v1 as nat]));
                assert(seq![v0 as nat] + seq![v1 as nat] =~= arcs0);
            } else {
                if spec_arcs_text(oid@.skip(e1 as int + 1)) is Some {
                    let rest = spec_arcs_text(oid@.skip(e1 as int + 1))->Some_0;
                    assert(t1.skip(dot_pos(t1) as int + 1) =~= oid@.skip(e1 as int + 1));
                    assert(seq![v0 as nat] + (seq![v1 as nat] + rest) =~= arcs0 + rest);
                } else {
                    assert(t1.skip(dot_pos(t1) as int + 1) =~= oid@.skip(e1 as int + 1));
                }
            }
        }
        if v0 > 2 || (v0 < 2 && v1 >= 40) {
            return None;
        }
        let combined = match (40 * v0).checked_add(v1) {
            Some(c) => c,
            None => {
                return None;
            },
        };
        let mut der: Vec<u8> = Vec::new();
        write_base128_int(&mut der, combined);
        proof {
            assert(Seq::<u8>::empty() + b128(combined as nat) =~= b128(combined as nat));
            assert(arcs0.skip(2) =~= Seq::<nat>::empty());
            assert(b128(combined as nat) + arcs_der(arcs0.skip(2)) =~= b128(combined as nat));
        }
        let ghost mut arcs: Seq<nat> = arcs0;
        let mut pos = e1;
        while pos < n
            invariant
                pos <= n == oid@.len(),
                pos == n || oid@[pos as int] == '.',
                arcs.len() >= 2,
                arcs[0] == v0 as nat,
                arcs[1] == v1 as nat,
                forall|i: int| 0 <= i < arcs.len() ==> #[trigger] arcs[i] < 0x1_0000_0000,
                combined == 40 * (v0 as nat) + v1 as nat,
                (combined as nat) < 0x1_0000_0000,
                der@ == b128(combined as nat) + arcs_der(arcs.skip(2)),
                (pos == n ==> spec_arcs_text(oid@) == Some(arcs)),
                (pos < n ==> spec_arcs_text(oid@) == (match spec_arcs_text(
                    oid@.skip(pos as int + 1),
                ) {
                    Option::None => None::<Seq<nat>>,
                    Option::Some(rest) => Some(arcs + rest),
                })),
            decreases n - pos,
        {
            let start = pos + 1;
            let e = find_dot(oid, start, n);
            proof {
                let t = oid@.skip(start as int);
                assert(oid@.subrange(start as int, e as int) =~= t.take(dot_pos(t) as int));
                assert(oid@.subrange(start as int, n as int) =~= t);
            }
            let v = match crate::decimal::parse_u32_range(oid, start, e) {
                Some(v) => v,
                None => {
                    proof {
                        let t = oid@.skip(start as int);
                        if dot_pos(t) >= t.len() {
                            assert(t.take(dot_pos(t) as int) =~= t);
                        }
                    }
                    return None;
                },
            };
            proof {
                let t = oid@.skip(start as int);
                if e == n {
                    assert(spec_arcs_text(t) == Some(seq![v as nat]));
                    assert(arcs + seq![v as nat] =~= arcs.push(v as nat));
                } else {
                    assert(t.skip(dot_pos(t) as int + 1) =~= oid@.skip(e as int + 1));
                    if spec_arcs_text(oid@.skip(e as int + 1)) is Some {
                        let rest = spec_arcs_text(oid@.skip(e as int + 1))->Some_0;
                        assert(arcs + (seq![v as nat] + rest) =~= arcs.push(v as nat) + rest);
                    }
                }
                lemma_arcs_der_push(arcs.skip(2), v as nat);
                assert(arcs.push(v as nat).skip(2) =~= arcs.skip(2).push(v as nat));
            }
            write_base128_int(&mut der, v);
            proof {
                assert(der@ =~= b128(combined as nat) + arcs_der(arcs.push(v as nat).skip(2)));
                assert(arcs.push(v as nat)[0] == v0 as nat);
                assert(arcs.push(v as nat)[1] == v1 as nat);
            }
            proof {
                arcs = arcs.push(v as nat);
            }
            pos = e;
        }
        if der.len() > MAX_OID_LENGTH {
            return None;
        }
        proof {
            lemma_arcs_der_wf(seq![combined as nat] + arcs.skip(2));
            assert((seq![combined as nat] + arcs.skip(2)).drop_first() =~= arcs.skip(2));
            assert(arcs_der(seq![combined as nat] + arcs.skip(2)) =~= b128(combined as nat)
                + arcs_der(arcs.skip(2)));
            lemma_b128_reads_back(combined as nat, arcs_der(arcs.skip(2)));
        }
        Some(ObjectIdentifier { der_encoded: der })
    }

    /// Reads an OID from its DER content octets: `InvalidValue` when the run
    /// is empty or does not split into base-128 groups, `OidTooLong` when it
    /// exceeds the capacity, otherwise the bytes verbatim.
    pub fn from_der(data: &[u8]) -> (r: Result<ObjectIdentifier, ParseError>)
        ensures
            match r {
                Ok(o) => o@ == data@ && oid_bytes_wf(data@),
                Err(e) => e.spec_location() == Seq::<Seq<char>>::empty() && e.spec_kind() == (
                if data@.len() > MAX_OID_LENGTH {
                    ParseErrorKind::OidTooLong
                } else {
                    ParseErrorKind::InvalidValue
                }) && !oid_bytes_wf(data@),
            },
    {
        if data.len() == 0 {
            return Err(ParseError::new(ParseErrorKind::InvalidValue));
        }
        if data.len() > MAX_OID_LENGTH {
            return Err(ParseError::new(ParseErrorKind::OidTooLong));
        }
        let mut pos: usize = 0;
        proof {
            assert(data@.skip(0) =~= data@);
        }
        while pos < data.len()
            invariant
                pos <= data@.len() <= MAX_OID_LENGTH,
                1 <= data@.len(),
                oid_wf_from(data@) <==> oid_wf_from(data@.skip(pos as int)),
            decreases data@.len() - pos,
        {
            let ghost rest = data@.skip(pos as int);
            proof {
                lemma_group_rec_bounds(rest, 0, 0);
            }
            match read_base128_int(data, pos) {
                Ok(p) => {
                    proof {
                        let kv = group_split(rest)->Some_0;
                        assert(rest.skip(kv.0 as int) =~= data@.skip(pos as int + kv.0));
                    }
                    pos = p.1;
                },
                Err(e) => {
                    return Err(e);
                },
            }
        }
        proof {
            assert(data@.skip(pos as int).len() == 0);
        }
        Ok(ObjectIdentifier { der_encoded: vstd::slice::slice_to_vec(data) })
    }

    /// Wraps DER content octets without checking them: the caller owes the
    /// well-formedness that `from_der` would have established.  Meant for
    /// constants whose bytes are known valid.
    pub fn from_der_unchecked(data: Vec<u8>) -> (r: ObjectIdentifier)
        requires
            oid_bytes_wf(data@),
        ensures
            r@ == data@,
    {
        ObjectIdentifier { der_encoded: data }
    }

    /// The stored DER content octets.
    pub fn as_der(&self) -> (r: &[u8])
        ensures
            r@ == self@,
    {
        self.der_encoded.as_slice()
    }

    /// The dotted decimal text of the value, e.g. `1.2.840.113549`.
    pub fn to_string(&self) -> (r: String)
        ensures
            r@ == spec_oid_string(self@),
    {
        proof {
            use_type_invariant(self);
            assert(self@.skip(0) =~= self@);
            lemma_group_rec_bounds(self@, 0, 0);
        }
        let data = self.der_encoded.as_slice();
        let (first, mut pos) = match read_base128_int(data, 0) {
            Ok(p) => p,
            Err(_) => {
                proof {
                    assert(false);
                }
                return String::new();
            },
        };
        let ghost all = arcs_from(self@);
        proof {
            let kv = group_split(self@)->Some_0;
            assert(all[0] == first as nat);
            assert(all.drop_first() =~= arcs_from(self@.skip(pos as int)));
        }
        let mut out = String::new();
        if first < 80 {
            push_decimal(&mut out, first / 40);
            push_dot(&mut out);
            push_decimal(&mut out, first % 40);
        } else {
            push_decimal(&mut out, 2);
            push_dot(&mut out);
            push_decimal(&mut out, first - 80);
        }
        proof {
            assert(Seq::<char>::empty() + spec_decimal((first / 40) as nat) =~= spec_decimal(
                (first / 40) as nat,
            ));
            assert(Seq::<char>::empty() + spec_decimal(2) =~= spec_decimal(2));
            assert(out@ =~= head_str(first as nat));
        }
        while pos < data.len()
            invariant
                pos <= data@.len(),
                data@ == self@,
                oid_wf_from(data@.skip(pos as int)),
                out@ + tail_str(arcs_from(data@.skip(pos as int))) == spec_oid_string(self@),
            decreases data@.len() - pos,
        {
            let ghost rest = data@.skip(pos as int);
            proof {
                lemma_group_rec_bounds(rest, 0, 0);
            }
            let (v, pos2) = match read_base128_int(data, pos) {
                Ok(p) => p,
                Err(_) => {
                    proof {
                        assert(false);
                    }
                    return String::new();
                },
            };
            proof {
                let kv = group_split(rest)->Some_0;
                assert(rest.skip(kv.0 as int) =~= data@.skip(pos2 as int));
                assert(arcs_from(rest).drop_first() =~= arcs_from(data@.skip(pos2 as int)));
                assert(arcs_from(rest)[0] == v as nat);
            }
            push_dot(&mut out);
            push_decimal(&mut out, v);
            pos = pos2;
        }
        proof {
            assert(data@.skip(pos as int).len() == 0);
            assert(out@ + Seq::<char>::empty() =~= out@);
        }
        out
    }
}

/// Appends the `.` separator.
fn push_dot(out: &mut String)
    ensures
        final(out)@ == old(out)@ + seq!['.'],
{
    out.append(".");
    proof {
        reveal_strlit(".");
        assert(out@ =~= old(out)@ + seq!['.']);
    }
}

/// Finds the first `.` at or after `start`, or the end of the string.
fn find_dot(s: &str, start: usize, n: usize) -> (e: usize)
    requires
        start <= n,
        n == s@.len(),
    ensures
        start <= e <= n,
        e - start == dot_pos(s@.skip(start as int)),
        e == n || s@[e as int] == '.',
        e < n ==> s@[e as int] == '.',
{
    let mut i = start;
    while i < n
        invariant
            start <= i <= n == s@.len(),
            dot_pos(s@.skip(start as int)) == (i - start) + dot_pos(s@.skip(i as int)),
            forall|j: int| start <= j < i ==> s@[j] != '.',
        decreases n - i,
    {
        let c = s.get_char(i);
        proof {
            assert(s@.skip(i as int)[0] == s@[i as int]);
            assert(s@.skip(i as int).drop_first() =~= s@.skip(i as int + 1));
        }
        if c == '.' {
            return i;
        }
        i += 1;
    }
    proof {
        assert(s@.skip(n as int).len() == 0);
    }
    n
}

impl Clone for ObjectIdentifier {
    /// A copy holding the same DER content octets.
    fn clone(&self) -> (r: ObjectIdentifier) {
        proof {
            use_type_invariant(self);
        }
        ObjectIdentifier { der_encoded: vstd::slice::slice_to_vec(self.der_encoded.as_slice()) }
    }
}

impl PartialEq for ObjectIdentifier {
    /// Structural equality over the stored DER content octets.
    fn eq(&self, other: &ObjectIdentifier) -> (r: bool) {
        let a = self.der_encoded.as_slice();
        let b = other.der_encoded.as_slice();
        if a.len() != b.len() {
            return false;
        }
        let mut i: usize = 0;
        while i < a.len()
            invariant
                a@ == self@,
                b@ == other@,
                a@.len() == b@.len(),
                i <= a@.len(),
                forall|j: int| 0 <= j < i ==> a@[j] == b@[j],
            decreases a@.len() - i,
        {
            if *vstd::slice::slice_index_get(a, i) != *vstd::slice::slice_index_get(b, i) {
                return false;
            }
            i += 1;
        }
        proof {
            assert(self@ =~= other@);
        }
        true
    }
}

impl vstd::std_specs::cmp::PartialEqSpecImpl for ObjectIdentifier {
    open spec fn obeys_eq_spec() -> bool {
        true
    }

    open spec fn eq_spec(&self, other: &ObjectIdentifier) -> bool {
        self@ == other@
    }
}

impl Eq for ObjectIdentifier {}

} // verus!
