//! Structured parse errors: a kind plus an accumulated location path.
//!
//! Every parser primitive returns a result rather than aborting.  As a
//! failure unwinds through nested shapes, each level annotates it with a
//! location label, so the error reports a dotted path such as
//! `Shape::field::Inner::innerfield` to the offending field.

use vstd::prelude::*;

verus! {

/// What went wrong while decoding.
#[derive(Debug, Clone, Copy, PartialEq, Eq, Structural)]
pub enum ParseErrorKind {
    /// The tag found matched no expected alternative; carries the actual tag.
    UnexpectedTag { actual: u8 },
    /// Malformed content: a non-canonical length, a malformed base-128
    /// integer, or an invalid string-to-OID conversion input.
    InvalidValue,
    /// OBJECT IDENTIFIER content longer than the fixed capacity.
    OidTooLong,
    /// A declared length runs past the end of the input.
    ShortData,
    /// Input bytes left over after a complete top-level parse.
    ExtraData,
}

/// A structured parse error: its kind and the location labels gathered while
/// unwinding, innermost first.
#[derive(Debug, Clone)]
pub struct ParseError {
    pub kind: ParseErrorKind,
    pub location: Vec<String>,
}

/// The labels each preceded by a `::` separator, in order.
pub open spec fn spec_path_tail(locs: Seq<Seq<char>>) -> Seq<char>
    decreases locs.len(),
{
    if locs.len() == 0 {
        Seq::empty()
    } else {
        "::"@ + locs[0] + spec_path_tail(locs.drop_first())
    }
}

/// The dotted path of a label sequence read outermost first: the labels
/// joined by `::`.
pub open spec fn spec_path(locs: Seq<Seq<char>>) -> Seq<char> {
    if locs.len() == 0 {
        Seq::empty()
    } else {
        locs[0] + spec_path_tail(locs.drop_first())
    }
}

impl ParseError {
    /// The error's kind.
    pub open spec fn spec_kind(&self) -> ParseErrorKind {
        self.kind
    }

    /// The location labels, innermost first, as sequences of characters.
    pub open spec fn spec_location(&self) -> Seq<Seq<char>> {
        self.location.deep_view()
    }

    /// A fresh error with no location context.
    pub fn new(kind: ParseErrorKind) -> (r: ParseError)
        ensures
            r.spec_kind() == kind,
            r.spec_location() == Seq::<Seq<char>>::empty(),
    {
        let r = ParseError { kind, location: Vec::new() };
        proof {
            assert(r.spec_location() =~= Seq::<Seq<char>>::empty());
        }
        r
    }

    /// The same error with one more location label, added while the failure
    /// unwinds outward through a nesting level.
    pub fn add_location(self, label: String) -> (r: ParseError)
        ensures
            r.spec_kind() == self.spec_kind(),
            r.spec_location() == self.spec_location().push(label@),
    {
        let mut location = self.location;
        location.push(label);
        let r = ParseError { kind: self.kind, location };
        proof {
            assert(r.spec_location() =~= self.spec_location().push(label@));
        }
        r
    }

    /// The error's kind.
    pub fn kind(&self) -> (r: ParseErrorKind)
        ensures
            r == self.spec_kind(),
    {
        self.kind
    }

    /// The dotted location path, outermost shape first.
    pub fn path_string(&self) -> (r: String)
        ensures
            r@ == spec_path(self.spec_location().reverse()),
    {
        let ghost rev = self.spec_location().reverse();
        let mut r = String::new();
        let n = self.location.len();
        let mut i: usize = 0;
        while i < n
            invariant
                rev == self.spec_location().reverse(),
                n == self.location.len(),
                i <= n,
                i == 0 ==> r@ == Seq::<char>::empty(),
                i > 0 ==> r@ + spec_path_tail(rev.skip(i as int)) == spec_path(rev),
            decreases n - i,
        {
            let ghost r0 = r@;
            proof {
                assert(rev[i as int] == self.location.deep_view()[n - 1 - i]);
            }
            if i > 0 {
                r.append("::");
            }
            let idx = n - 1 - i;
            r.append(self.location[idx].as_str());
            proof {
                let lab = rev[i as int];
                if i == 0 {
                    assert(rev.drop_first() =~= rev.skip(1));
                    assert(r@ =~= lab);
                    assert(r@ + spec_path_tail(rev.skip(1)) == spec_path(rev));
                } else {
                    assert(rev.skip(i as int).drop_first() =~= rev.skip(i as int + 1));
                    assert(rev.skip(i as int)[0] == lab);
                    assert(spec_path_tail(rev.skip(i as int)) == "::"@ + lab + spec_path_tail(
                        rev.skip(i as int + 1),
                    ));
                    assert(r@ + spec_path_tail(rev.skip(i as int + 1)) =~= r0 + spec_path_tail(
                        rev.skip(i as int),
                    ));
                }
            }
            i += 1;
        }
        proof {
            if n == 0 {
                assert(r@ =~= spec_path(rev));
            } else {
                assert(rev.skip(n as int) =~= Seq::<Seq<char>>::empty());
                assert(r@ + Seq::<char>::empty() =~= r@);
            }
        }
        r
    }
}

impl PartialEq for ParseError {
    /// Two errors are equal when their kinds and their location paths agree.
    fn eq(&self, other: &ParseError) -> (r: bool) {
        if !(self.kind == other.kind) {
            return false;
        }
        if self.location.len() != other.location.len() {
            proof {
                assert(self.spec_location().len() != other.spec_location().len());
            }
            return false;
        }
        let n = self.location.len();
        let mut i: usize = 0;
        while i < n
            invariant
                n == self.location.len(),
                n == other.location.len(),
                i <= n,
                forall|j: int| 0 <= j < i ==> self.spec_location()[j] == other.spec_location()[j],
            decreases n - i,
        {
            if !(self.location[i] == other.location[i]) {
                proof {
                    assert(self.spec_location()[i as int] != other.spec_location()[i as int]);
                }
                return false;
            }
            i += 1;
        }
        proof {
            assert(self.spec_location() =~= other.spec_location());
        }
        true
    }
}

impl vstd::std_specs::cmp::PartialEqSpecImpl for ParseError {
    open spec fn obeys_eq_spec() -> bool {
        true
    }

    open spec fn eq_spec(&self, other: &ParseError) -> bool {
        self.kind == other.kind && self.spec_location() == other.spec_location()
    }
}

impl Eq for ParseError {}

} // verus!
