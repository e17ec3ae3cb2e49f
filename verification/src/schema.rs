//! The schema-to-codec layer: a declared shape — a record of fields or a
//! tagged union of variants, each carrying a tagging mode, an optionality
//! flag and an optional default — drives a fixed sequence of TLV reads and
//! writes, in declaration order for records and by leading tag for unions.
//!
//! Decoding follows the declared fields one by one, filling absent defaulted
//! fields with their default; encoding mirrors it, and suppresses a value
//! equal to its field's default.  Failures are annotated with
//! `Shape::field` labels as they unwind.

use crate::errors::{ParseError, ParseErrorKind};
use crate::parser::Parser;
use crate::tag::{
    explicit_tag, implicit_tag, spec_explicit_tag, spec_implicit_tag, MAX_TAG_NUMBER, SEQUENCE_TAG,
};
use crate::tlv::{spec_tlv, tlv_bytes, TlvShape};
use crate::writer::Writer;
use vstd::prelude::*;
use vstd::string::*;

verus! {

/// One decoded element: its own tag and its content octets, owned.
#[derive(Debug)]
pub struct Element {
    /// The element's tag byte.
    pub tag: u8,
    /// The element's content octets.
    pub content: Vec<u8>,
}

/// The mathematical form of an element: its tag and content bytes.
#[verifier::ext_equal]
pub struct ElementV {
    /// The element's tag byte.
    pub tag: u8,
    /// The element's content octets.
    pub content: Seq<u8>,
}

impl View for Element {
    type V = ElementV;

    open spec fn view(&self) -> ElementV {
        ElementV { tag: self.tag, content: self.content@ }
    }
}

/// The view of a possibly absent element.
pub open spec fn opt_view(v: Option<Element>) -> Option<ElementV> {
    match v {
        Some(e) => Some(e@),
        None => None,
    }
}

/// The views of a run of possibly absent elements.
pub open spec fn vals_view(vs: Seq<Option<Element>>) -> Seq<Option<ElementV>> {
    Seq::new(vs.len(), |i: int| opt_view(vs[i]))
}

impl Element {
    /// An element from its tag and content octets.
    pub fn new(tag: u8, content: Vec<u8>) -> (r: Element)
        ensures
            r@ == (ElementV { tag, content: content@ }),
    {
        Element { tag, content }
    }

    /// A copy of the element.
    pub fn duplicate(&self) -> (r: Element)
        ensures
            r@ == self@,
    {
        Element { tag: self.tag, content: vstd::slice::slice_to_vec(self.content.as_slice()) }
    }

    /// Whether two elements hold the same tag and content.
    pub fn eq_element(&self, other: &Element) -> (r: bool)
        ensures
            r == (self@ == other@),
    {
        if self.tag != other.tag {
            return false;
        }
        if self.content.len() != other.content.len() {
            proof {
                assert(self@.content.len() != other@.content.len());
            }
            return false;
        }
        let n = self.content.len();
        let mut i: usize = 0;
        while i < n
            invariant
                n == self.content@.len() == other.content@.len(),
                i <= n,
                forall|j: int| 0 <= j < i ==> self.content@[j] == other.content@[j],
            decreases n - i,
        {
            if self.content[i] != other.content[i] {
                return false;
            }
            i += 1;
        }
        proof {
            assert(self@.content =~= other@.content);
            assert(self@ =~= other@);
        }
        true
    }
}

/// How a field or variant is tagged: by its type's own tag, wrapped in an
/// explicit context tag, or under an implicit context tag.
#[derive(Debug, Clone, Copy)]
pub enum TagMode {
    /// The value keeps its own tag.
    Regular,
    /// The value is nested inside a constructed context-specific unit with
    /// this tag number.
    Explicit(u32),
    /// The value's own tag is replaced by a context-specific tag with this
    /// number, keeping its constructed bit.
    Implicit(u32),
}

/// A tag mode whose tag number fits a one-byte tag.
pub open spec fn mode_wf(m: TagMode) -> bool {
    match m {
        TagMode::Regular => true,
        TagMode::Explicit(n) => n <= MAX_TAG_NUMBER,
        TagMode::Implicit(n) => n <= MAX_TAG_NUMBER,
    }
}

/// The leading tag a mode resolves to, over the underlying type's own tag.
pub open spec fn resolved_tag(m: TagMode, under: u8) -> u8 {
    match m {
        TagMode::Regular => under,
        TagMode::Explicit(n) => spec_explicit_tag(n),
        TagMode::Implicit(n) => spec_implicit_tag(n, under),
    }
}

/// One field of a record shape: its name for error labels, its tagging
/// mode, its type's own tag, whether it is required, and its default.
#[derive(Debug)]
pub struct FieldSchema {
    /// The field's name, used in error location labels.
    pub name: String,
    /// The field's tagging mode.
    pub mode: TagMode,
    /// The underlying type's own tag.
    pub tag: u8,
    /// Whether the field must be present; a field with a default is read as
    /// if optional and filled when absent.
    pub required: bool,
    /// The declared default value, if any.
    pub default: Option<Element>,
}

/// One variant of a tagged-union shape: its name, mode and underlying tag.
#[derive(Debug)]
pub struct VariantSchema {
    /// The variant's name, used in error location labels.
    pub name: String,
    /// The variant's tagging mode.
    pub mode: TagMode,
    /// The carried type's own tag.
    pub tag: u8,
}

/// A well-formed field: a valid mode, and a default that carries the
/// field's own underlying tag.
pub open spec fn field_wf(f: FieldSchema) -> bool {
    mode_wf(f.mode) && (f.default matches Some(d) ==> d@.tag == f.tag)
}

/// A well-formed record schema.
pub open spec fn fields_wf(fs: Seq<FieldSchema>) -> bool {
    forall|i: int| 0 <= i < fs.len() ==> field_wf(#[trigger] fs[i])
}

/// A well-formed union schema.
pub open spec fn variants_wf(vs: Seq<VariantSchema>) -> bool {
    forall|i: int| 0 <= i < vs.len() ==> mode_wf(#[trigger] vs[i].mode)
}

/// The bytes one present element occupies under a mode.
pub open spec fn mode_bytes(m: TagMode, e: ElementV) -> Seq<u8> {
    match m {
        TagMode::Regular => tlv_bytes(e.tag, e.content),
        TagMode::Explicit(n) => tlv_bytes(spec_explicit_tag(n), tlv_bytes(e.tag, e.content)),
        TagMode::Implicit(n) => tlv_bytes(spec_implicit_tag(n, e.tag), e.content),
    }
}

/// The bytes the writer emits for one field: nothing for an absent value or
/// for a value equal to the field's default, the mode's encoding otherwise.
pub open spec fn field_bytes(f: FieldSchema, v: Option<ElementV>) -> Seq<u8> {
    match v {
        None => Seq::empty(),
        Some(e) => if f.default matches Some(d) && d@ == e {
            Seq::empty()
        } else {
            mode_bytes(f.mode, e)
        },
    }
}

/// The concatenated bytes of the first `i` fields.
pub open spec fn fields_bytes_upto(
    fs: Seq<FieldSchema>,
    vs: Seq<Option<ElementV>>,
    i: int,
) -> Seq<u8>
    decreases i,
{
    if i <= 0 {
        Seq::empty()
    } else {
        fields_bytes_upto(fs, vs, i - 1) + field_bytes(fs[i - 1], vs[i - 1])
    }
}

/// The bytes of a whole record value: its fields' bytes wrapped in a
/// SEQUENCE unit.
pub open spec fn record_bytes(fs: Seq<FieldSchema>, vs: Seq<Option<ElementV>>) -> Seq<u8> {
    tlv_bytes(SEQUENCE_TAG, fields_bytes_upto(fs, vs, fs.len() as int))
}

/// Reading one present element under a mode from the front of a byte run:
/// the element and the leftover, or nothing when the unit is malformed, its
/// tag is not the mode's resolved tag, or an explicit wrapper does not hold
/// exactly one unit bearing the underlying tag.
pub open spec fn spec_read_mode(m: TagMode, under: u8, s: Seq<u8>) -> Option<(ElementV, Seq<u8>)> {
    match spec_tlv(s) {
        TlvShape::Unit { tag, header, length } => {
            if tag != resolved_tag(m, under) {
                None
            } else {
                let content = s.subrange(header as int, (header + length) as int);
                let rest = s.skip((header + length) as int);
                match m {
                    TagMode::Regular => Some((ElementV { tag: under, content }, rest)),
                    TagMode::Implicit(_) => Some((ElementV { tag: under, content }, rest)),
                    TagMode::Explicit(_) => match spec_tlv(content) {
                        TlvShape::Unit { tag: t2, header: h2, length: l2 } => {
                            if t2 != under || h2 + l2 != content.len() {
                                None
                            } else {
                                Some(
                                    (
                                        ElementV {
                                            tag: under,
                                            content: content.subrange(
                                                h2 as int,
                                                (h2 + l2) as int,
                                            ),
                                        },
                                        rest,
                                    ),
                                )
                            }
                        },
                        _ => None,
                    },
                }
            }
        },
        _ => None,
    }
}

/// Reading one field from the front of a byte run: an optional or defaulted
/// field whose resolved tag does not lead the run is absent (the default
/// fills it) and consumes nothing; otherwise the mode's element is read.
pub open spec fn spec_field(f: FieldSchema, s: Seq<u8>) -> Option<(Option<ElementV>, Seq<u8>)> {
    let rt = resolved_tag(f.mode, f.tag);
    let optional = !f.required || f.default is Some;
    if optional && (s.len() == 0 || s[0] != rt) {
        Some(
            (
                match f.default {
                    Some(d) => Some(d@),
                    None => None,
                },
                s,
            ),
        )
    } else {
        match spec_read_mode(f.mode, f.tag, s) {
            None => None,
            Some((e, rest)) => Some((Some(e), rest)),
        }
    }
}

/// Reading the fields from `i` on: their values and the leftover bytes.
pub open spec fn spec_fields(fs: Seq<FieldSchema>, s: Seq<u8>, i: int) -> Option<
    (Seq<Option<ElementV>>, Seq<u8>),
>
    decreases fs.len() - i,
{
    if i >= fs.len() {
        Some((Seq::empty(), s))
    } else {
        match spec_field(fs[i], s) {
            None => None,
            Some((v, rest)) => match spec_fields(fs, rest, i + 1) {
                None => None,
                Some((vs, left)) => Some((seq![v] + vs, left)),
            },
        }
    }
}

/// Decoding a whole record from a byte run: one SEQUENCE unit spanning the
/// whole run, whose content the declared fields consume completely.
pub open spec fn spec_record(fs: Seq<FieldSchema>, data: Seq<u8>) -> Option<Seq<Option<ElementV>>> {
    match spec_tlv(data) {
        TlvShape::Unit { tag, header, length } => {
            if tag != SEQUENCE_TAG || header + length != data.len() {
                None
            } else {
                match spec_fields(fs, data.subrange(header as int, (header + length) as int), 0) {
                    Some((vs, left)) => {
                        if left.len() == 0 {
                            Some(vs)
                        } else {
                            None
                        }
                    },
                    None => None,
                }
            }
        },
        _ => None,
    }
}

/// The first declared variant whose resolved tag is the given one, or the
/// variant count when none matches.
pub open spec fn first_match(vs: Seq<VariantSchema>, tag: u8, i: int) -> int
    decreases vs.len() - i,
{
    if i < 0 || i >= vs.len() {
        vs.len() as int
    } else if resolved_tag(vs[i].mode, vs[i].tag) == tag {
        i
    } else {
        first_match(vs, tag, i + 1)
    }
}

/// Decoding a tagged union from a byte run: one unit spanning the whole
/// run, routed to the first declared variant whose resolved tag matches its
/// leading tag.
pub open spec fn spec_choice(vs: Seq<VariantSchema>, data: Seq<u8>) -> Option<(int, ElementV)> {
    match spec_tlv(data) {
        TlvShape::Unit { tag, header, length } => {
            if header + length != data.len() {
                None
            } else {
                let i = first_match(vs, tag, 0);
                if i >= vs.len() {
                    None
                } else {
                    match spec_read_mode(vs[i].mode, vs[i].tag, data) {
                        Some((e, _)) => Some((i, e)),
                        None => None,
                    }
                }
            }
        },
        _ => None,
    }
}

/// The concatenated bytes of the fields from `i` on.
pub open spec fn fields_bytes_from(
    fs: Seq<FieldSchema>,
    vs: Seq<Option<ElementV>>,
    i: int,
) -> Seq<u8>
    decreases fs.len() - i,
{
    if i < 0 || i >= fs.len() {
        Seq::empty()
    } else {
        field_bytes(fs[i], vs[i]) + fields_bytes_from(fs, vs, i + 1)
    }
}

/// The whole fields' bytes split at any point into a prefix and a suffix.
pub proof fn lemma_fields_bytes_split(fs: Seq<FieldSchema>, vs: Seq<Option<ElementV>>, i: int)
    requires
        0 <= i <= fs.len(),
    ensures
        fields_bytes_upto(fs, vs, fs.len() as int) == fields_bytes_upto(fs, vs, i)
            + fields_bytes_from(fs, vs, i),
    decreases fs.len() - i,
{
    if i == fs.len() {
        assert(fields_bytes_upto(fs, vs, i) + fields_bytes_from(fs, vs, i) =~= fields_bytes_upto(
            fs,
            vs,
            i,
        ));
    } else {
        lemma_fields_bytes_split(fs, vs, i + 1);
        assert(fields_bytes_upto(fs, vs, i + 1) + fields_bytes_from(fs, vs, i + 1)
            =~= fields_bytes_upto(fs, vs, i) + fields_bytes_from(fs, vs, i));
    }
}

/// No two fields or variants resolve to the same leading tag.
pub open spec fn tags_distinct(fs: Seq<FieldSchema>) -> bool {
    forall|i: int, j: int|
        0 <= i < j < fs.len() ==> resolved_tag(#[trigger] fs[i].mode, fs[i].tag) != resolved_tag(
            #[trigger] fs[j].mode,
            fs[j].tag,
        )
}

/// A record value the writer accepts back: as long as its schema, carrying
/// each field's own tag, present wherever the field is required or
/// defaulted, and with content small enough to frame.
pub open spec fn values_wf(fs: Seq<FieldSchema>, vs: Seq<Option<ElementV>>) -> bool {
    &&& vs.len() == fs.len()
    &&& forall|i: int|
        0 <= i < fs.len() ==> (#[trigger] vs[i] matches Some(e) ==> e.tag == fs[i].tag
            && e.content.len() < 0x1000_0000_0000_0000)
    &&& forall|i: int|
        0 <= i < fs.len() ==> ((fs[i].required || #[trigger] fs[i].default is Some) ==> vs[i]
            is Some)
}

/// Reading back what the writer emits for one present element under a
/// mode: the element itself, with the trailing bytes untouched.
pub proof fn lemma_read_mode_round_trip(m: TagMode, e: ElementV, rest: Seq<u8>)
    requires
        mode_wf(m),
        e.content.len() < 0x1000_0000_0000_0000,
    ensures
        spec_read_mode(m, e.tag, mode_bytes(m, e) + rest) == Some((e, rest)),
        mode_bytes(m, e).len() > 0 && (mode_bytes(m, e) + rest)[0] == resolved_tag(m, e.tag),
{
    let s = mode_bytes(m, e) + rest;
    match m {
        TagMode::Regular => {
            crate::tlv::lemma_tlv_bytes_parse(e.tag, e.content, rest);
            let hl = tlv_bytes(e.tag, e.content).len() as int;
            assert(s.subrange(s.len() - rest.len(), s.len() as int) =~= rest);
            assert(s.skip(hl) =~= rest);
            assert(s.subrange(hl - e.content.len(), hl) =~= e.content);
            assert(spec_read_mode(m, e.tag, s) matches Some(p) && p.0 =~= e && p.1 == rest);
        },
        TagMode::Implicit(n) => {
            let rt = spec_implicit_tag(n, e.tag);
            crate::tlv::lemma_tlv_bytes_parse(rt, e.content, rest);
            let hl = tlv_bytes(rt, e.content).len() as int;
            assert(s.skip(hl) =~= rest);
            assert(s.subrange(hl - e.content.len(), hl) =~= e.content);
            assert(spec_read_mode(m, e.tag, s) matches Some(p) && p.0 =~= e && p.1 == rest);
        },
        TagMode::Explicit(n) => {
            let rt = spec_explicit_tag(n);
            let inner = tlv_bytes(e.tag, e.content);
            crate::tlv::lemma_tlv_bytes_parse(e.tag, e.content, Seq::empty());
            assert(inner + Seq::<u8>::empty() =~= inner);
            crate::tlv::lemma_tlv_bytes_parse(rt, inner, rest);
            let hl = tlv_bytes(rt, inner).len() as int;
            assert(s.skip(hl) =~= rest);
            assert(s.subrange(hl - inner.len(), hl) =~= inner);
            let ih = 1 + crate::tlv::len_octets(e.content.len()).len() as int;
            assert(inner.subrange(ih, inner.len() as int) =~= e.content);
            assert(spec_read_mode(m, e.tag, s) matches Some(p) && p.0 =~= e && p.1 == rest);
        },
    }
}

/// Reading back what the writer emits for one field, provided an absent or
/// suppressed field is not shadowed: when nothing was written, the bytes
/// that follow must not lead with the field's own resolved tag.
pub proof fn lemma_field_round_trip(f: FieldSchema, v: Option<ElementV>, rest: Seq<u8>)
    requires
        field_wf(f),
        v matches Some(e) ==> e.tag == f.tag && e.content.len() < 0x1000_0000_0000_0000,
        f.required && f.default is None ==> v is Some,
        f.default is Some ==> v is Some,
        field_bytes(f, v).len() == 0 ==> rest.len() == 0 || rest[0] != resolved_tag(
            f.mode,
            f.tag,
        ),
    ensures
        spec_field(f, field_bytes(f, v) + rest) == Some((v, rest)),
    decreases 0int,
{
    let rt = resolved_tag(f.mode, f.tag);
    let s = field_bytes(f, v) + rest;
    if field_bytes(f, v).len() == 0 {
        assert(s =~= rest);
        match v {
            None => {
                assert(!f.required || f.default is Some) by {
                    assert(f.default is Some ==> v is Some);
                }
            },
            Some(e) => {
                assert(f.default matches Some(d) && d@ == e);
            },
        }
    } else {
        let e = v->Some_0;
        lemma_read_mode_round_trip(f.mode, e, rest);
        assert(s[0] == rt);
    }
}

/// Reading back what the writer emits for the fields from `i` on: every
/// value returns, and nothing is left over.
pub proof fn lemma_fields_round_trip(fs: Seq<FieldSchema>, vs: Seq<Option<ElementV>>, i: int)
    requires
        0 <= i <= fs.len(),
        fields_wf(fs),
        tags_distinct(fs),
        values_wf(fs, vs),
    ensures
        spec_fields(fs, fields_bytes_from(fs, vs, i), i) == Some(
            (vs.skip(i), Seq::<u8>::empty()),
        ),
        fields_bytes_from(fs, vs, i).len() > 0 ==> exists|j: int|
            i <= j < fs.len() && fields_bytes_from(fs, vs, i)[0] == resolved_tag(
                #[trigger] fs[j].mode,
                fs[j].tag,
            ),
    decreases fs.len() - i,
{
    if i == fs.len() {
        assert(vs.skip(i) =~= Seq::<Option<ElementV>>::empty());
        assert(spec_fields(fs, fields_bytes_from(fs, vs, i), i) == Some(
            (Seq::<Option<ElementV>>::empty(), fields_bytes_from(fs, vs, i)),
        ));
    } else {
        lemma_fields_round_trip(fs, vs, i + 1);
        let rest = fields_bytes_from(fs, vs, i + 1);
        let fb = field_bytes(fs[i], vs[i]);
        if fb.len() == 0 && rest.len() > 0 {
            let j = choose|j: int|
                i + 1 <= j < fs.len() && rest[0] == resolved_tag(
                    #[trigger] fs[j].mode,
                    fs[j].tag,
                );
            assert(rest[0] != resolved_tag(fs[i].mode, fs[i].tag));
        }
        lemma_field_round_trip(fs[i], vs[i], rest);
        assert(fields_bytes_from(fs, vs, i) == fb + rest);
        assert(spec_field(fs[i], fb + rest) == Some((vs[i], rest)));
        assert(seq![vs[i]] + vs.skip(i + 1) =~= vs.skip(i));
        if fb.len() > 0 {
            let e = vs[i]->Some_0;
            lemma_read_mode_round_trip(fs[i].mode, e, rest);
            assert((fb + rest)[0] == resolved_tag(fs[i].mode, fs[i].tag));
        } else if rest.len() > 0 {
            assert(fields_bytes_from(fs, vs, i) =~= rest);
        }
    }
}

/// The round trip of a whole record: decoding what the writer emits for any
/// well-formed record value under a schema without tag collisions yields
/// exactly that value.  With `encode_record`'s and `decode_record`'s
/// contracts this carries the law to the executable codec, and it makes the
/// canonical encoding unique: a buffer the decoder accepts re-encodes to
/// itself.
pub proof fn lemma_record_round_trip(fs: Seq<FieldSchema>, vs: Seq<Option<ElementV>>)
    requires
        fields_wf(fs),
        tags_distinct(fs),
        values_wf(fs, vs),
        fields_bytes_upto(fs, vs, fs.len() as int).len() < 0x1000_0000_0000_0000,
    ensures
        spec_record(fs, record_bytes(fs, vs)) == Some(vs),
{
    let body = fields_bytes_upto(fs, vs, fs.len() as int);
    let data = record_bytes(fs, vs);
    crate::tlv::lemma_tlv_bytes_parse(SEQUENCE_TAG, body, Seq::empty());
    assert(tlv_bytes(SEQUENCE_TAG, body) + Seq::<u8>::empty() =~= data);
    let hl = data.len() as int;
    assert(data.subrange(hl - body.len(), hl) =~= body);
    lemma_fields_bytes_split(fs, vs, 0);
    assert(fields_bytes_upto(fs, vs, 0) + fields_bytes_from(fs, vs, 0) =~= fields_bytes_from(
        fs,
        vs,
        0,
    ));
    lemma_fields_round_trip(fs, vs, 0);
    assert(vs.skip(0) =~= vs);
}

/// The round trip of a tagged union: decoding what the writer emits for a
/// variant that is the first of its resolved tag yields that variant and
/// value back.
pub proof fn lemma_choice_round_trip(vars: Seq<VariantSchema>, chosen: int, e: ElementV)
    requires
        variants_wf(vars),
        0 <= chosen < vars.len(),
        e.tag == vars[chosen].tag,
        e.content.len() < 0x1000_0000_0000_0000,
        first_match(vars, resolved_tag(vars[chosen].mode, vars[chosen].tag), 0) == chosen,
    ensures
        spec_choice(vars, mode_bytes(vars[chosen].mode, e)) == Some((chosen, e)),
{
    let m = vars[chosen].mode;
    let data = mode_bytes(m, e);
    lemma_read_mode_round_trip(m, e, Seq::empty());
    assert(data + Seq::<u8>::empty() =~= data);
    match m {
        TagMode::Regular => {
            crate::tlv::lemma_tlv_bytes_parse(e.tag, e.content, Seq::empty());
        },
        TagMode::Implicit(n) => {
            crate::tlv::lemma_tlv_bytes_parse(spec_implicit_tag(n, e.tag), e.content, Seq::empty());
        },
        TagMode::Explicit(n) => {
            let inner = tlv_bytes(e.tag, e.content);
            crate::tlv::lemma_tlv_bytes_parse(e.tag, e.content, Seq::empty());
            crate::tlv::lemma_tlv_bytes_parse(spec_explicit_tag(n), inner, Seq::empty());
        },
    }
}

/// An `Shape::field` location label.
fn field_label(shape: &str, field: &str) -> String {
    let mut l = String::from_str(shape);
    l.append("::");
    l.append(field);
    l
}

/// Reads one element under a tagging mode: the plain, the explicit and the
/// implicit read in one entry, selected by the mode.
pub fn read_tagged_element<'a>(p: &mut Parser<'a>, mode: TagMode, under: u8) -> (r: Result<
    Element,
    ParseError,
>)
    requires
        old(p).wf(),
        mode_wf(mode),
    ensures
        final(p).wf(),
        final(p).data == old(p).data,
        match r {
            Ok(e) => spec_read_mode(mode, under, old(p).remaining()) == Some(
                (e@, final(p).remaining()),
            ),
            Err(_) => spec_read_mode(mode, under, old(p).remaining()) is None,
        },
{
    match mode {
        TagMode::Regular => {
            let tlv = match p.read_element(under) {
                Ok(t) => t,
                Err(e) => {
                    return Err(e);
                },
            };
            Ok(Element { tag: under, content: vstd::slice::slice_to_vec(tlv.data()) })
        },
        TagMode::Implicit(n) => {
            let rt = implicit_tag(n, under);
            let tlv = match p.read_element(rt) {
                Ok(t) => t,
                Err(e) => {
                    return Err(e);
                },
            };
            Ok(Element { tag: under, content: vstd::slice::slice_to_vec(tlv.data()) })
        },
        TagMode::Explicit(n) => {
            let rt = explicit_tag(n);
            let tlv = match p.read_element(rt) {
                Ok(t) => t,
                Err(e) => {
                    return Err(e);
                },
            };
            let mut q = Parser::new(tlv.data());
            let inner = match q.read_element(under) {
                Ok(t) => t,
                Err(e) => {
                    return Err(e);
                },
            };
            if !q.is_empty() {
                return Err(ParseError::new(ParseErrorKind::ExtraData));
            }
            proof {
                let content = tlv.content@;
                assert(content.subrange(0, content.len() as int) =~= content);
            }
            Ok(Element { tag: under, content: vstd::slice::slice_to_vec(inner.data()) })
        },
    }
}

/// Reads one field: tries the optional or defaulted forms by peeking at the
/// leading tag, fills an absent defaulted field with its default, and
/// annotates any failure with the `Shape::field` label.
pub fn decode_field<'a>(p: &mut Parser<'a>, shape: &str, f: &FieldSchema) -> (r: Result<
    Option<Element>,
    ParseError,
>)
    requires
        old(p).wf(),
        field_wf(*f),
    ensures
        final(p).wf(),
        final(p).data == old(p).data,
        match r {
            Ok(v) => spec_field(*f, old(p).remaining()) == Some(
                (opt_view(v), final(p).remaining()),
            ),
            Err(_) => spec_field(*f, old(p).remaining()) is None,
        },
{
    let rt = match f.mode {
        TagMode::Regular => f.tag,
        TagMode::Explicit(n) => explicit_tag(n),
        TagMode::Implicit(n) => implicit_tag(n, f.tag),
    };
    let optional = !f.required || f.default.is_some();
    if optional {
        let absent = match p.peek_u8() {
            None => true,
            Some(b) => b != rt,
        };
        if absent {
            let filled = match &f.default {
                Some(d) => Some(d.duplicate()),
                None => None,
            };
            return Ok(filled);
        }
    }
    match read_tagged_element(p, f.mode, f.tag) {
        Ok(e) => Ok(Some(e)),
        Err(e) => Err(e.add_location(field_label(shape, f.name.as_str()))),
    }
}

/// Decodes a record: one SEQUENCE unit spanning the whole input, whose
/// content the declared fields consume in order and completely.  Trailing
/// bytes after the unit are `ExtraData`, as DER's exact-consumption rule
/// demands.
pub fn decode_record(data: &[u8], shape: &str, fields: &Vec<FieldSchema>) -> (r: Result<
    Vec<Option<Element>>,
    ParseError,
>)
    requires
        fields_wf(fields@),
    ensures
        match r {
            Ok(vs) => spec_record(fields@, data@) == Some(vals_view(vs@)),
            Err(_) => spec_record(fields@, data@) is None,
        },
        spec_tlv(data@) matches TlvShape::Unit { tag, header, length } ==> ((tag == SEQUENCE_TAG
            && header + length < data@.len()) ==> (r matches Err(e) && e.spec_kind()
            == ParseErrorKind::ExtraData)),
{
    let mut p = Parser::new(data);
    let tlv = match p.read_element(SEQUENCE_TAG) {
        Ok(t) => t,
        Err(e) => {
            return Err(e);
        },
    };
    if !p.is_empty() {
        return Err(ParseError::new(ParseErrorKind::ExtraData));
    }
    let ghost content0 = tlv.content@;
    let mut inner = Parser::new(tlv.data());
    let mut vs: Vec<Option<Element>> = Vec::new();
    let n = fields.len();
    let mut i: usize = 0;
    proof {
        assert(vals_view(vs@) =~= Seq::<Option<ElementV>>::empty());
    }
    while i < n
        invariant
            n == fields@.len(),
            i <= n,
            vs@.len() == i,
            fields_wf(fields@),
            inner.wf(),
            inner.data@ == content0,
            spec_tlv(data@) matches TlvShape::Unit { tag, header, length } && tag == SEQUENCE_TAG
                && header + length == data@.len() && content0 == data@.subrange(
                header as int,
                (header + length) as int,
            ),
            match spec_fields(fields@, content0, 0) {
                None => spec_record(fields@, data@) is None,
                Some((all, left)) => spec_record(fields@, data@) == (if left.len() == 0 {
                    Some(all)
                } else {
                    None
                }),
            },
            match spec_fields(fields@, inner.remaining(), i as int) {
                None => spec_fields(fields@, content0, 0) is None,
                Some((tail, left)) => spec_fields(fields@, content0, 0) == Some(
                    (vals_view(vs@) + tail, left),
                ),
            },
        decreases n - i,
    {
        let ghost rem0 = inner.remaining();
        match decode_field(&mut inner, shape, &fields[i]) {
            Ok(v) => {
                proof {
                    if spec_fields(fields@, inner.remaining(), i as int + 1) is Some {
                        let (tail, left) = spec_fields(
                            fields@,
                            inner.remaining(),
                            i as int + 1,
                        )->Some_0;
                        assert(vals_view(vs@.push(v)) =~= vals_view(vs@) + seq![opt_view(v)]);
                        assert(vals_view(vs@) + (seq![opt_view(v)] + tail) =~= vals_view(
                            vs@.push(v),
                        ) + tail);
                    }
                }
                vs.push(v);
            },
            Err(e) => {
                return Err(e);
            },
        }
        i += 1;
    }
    if !inner.is_empty() {
        return Err(ParseError::new(ParseErrorKind::ExtraData));
    }
    proof {
        assert(vals_view(vs@) + Seq::<Option<ElementV>>::empty() =~= vals_view(vs@));
    }
    Ok(vs)
}

/// Appends one present element under a mode: the value's own unit, that
/// unit nested in an explicit wrapper, or its content under the implicit
/// tag.
pub fn write_tagged_element(w: &mut Writer, mode: TagMode, e: &Element)
    requires
        mode_wf(mode),
    ensures
        final(w)@ == old(w)@ + mode_bytes(mode, e@),
{
    match mode {
        TagMode::Regular => {
            w.write_tlv(e.tag, e.content.as_slice());
        },
        TagMode::Implicit(n) => {
            let rt = implicit_tag(n, e.tag);
            w.write_tlv(rt, e.content.as_slice());
        },
        TagMode::Explicit(n) => {
            let rt = explicit_tag(n);
            let mut innerw = Writer::new();
            innerw.write_tlv(e.tag, e.content.as_slice());
            proof {
                assert(Seq::<u8>::empty() + tlv_bytes(e@.tag, e@.content) =~= tlv_bytes(
                    e@.tag,
                    e@.content,
                ));
            }
            w.write_tlv(rt, innerw.as_bytes());
        },
    }
}

/// Appends one field's bytes: nothing for an absent value or one equal to
/// the field's default, the mode's encoding otherwise.
pub fn write_field(w: &mut Writer, f: &FieldSchema, v: &Option<Element>)
    requires
        field_wf(*f),
    ensures
        final(w)@ == old(w)@ + field_bytes(*f, opt_view(*v)),
{
    match v {
        None => {
            proof {
                assert(w@ =~= old(w)@ + field_bytes(*f, opt_view(*v)));
            }
        },
        Some(e) => {
            let suppress = match &f.default {
                Some(d) => e.eq_element(d),
                None => false,
            };
            if suppress {
                proof {
                    assert(w@ =~= old(w)@ + field_bytes(*f, opt_view(*v)));
                }
            } else {
                write_tagged_element(w, f.mode, e);
            }
        },
    }
}

/// Encodes a record value: each field's bytes in declaration order, wrapped
/// in one SEQUENCE unit.
pub fn encode_record(fields: &Vec<FieldSchema>, values: &Vec<Option<Element>>) -> (r: Vec<u8>)
    requires
        fields_wf(fields@),
        values@.len() == fields@.len(),
    ensures
        r@ == record_bytes(fields@, vals_view(values@)),
{
    let mut innerw = Writer::new();
    let n = fields.len();
    let mut i: usize = 0;
    proof {
        assert(innerw@ =~= fields_bytes_upto(fields@, vals_view(values@), 0));
    }
    while i < n
        invariant
            n == fields@.len() == values@.len(),
            i <= n,
            fields_wf(fields@),
            innerw@ == fields_bytes_upto(fields@, vals_view(values@), i as int),
        decreases n - i,
    {
        write_field(&mut innerw, &fields[i], &values[i]);
        proof {
            assert(opt_view(values@[i as int]) == vals_view(values@)[i as int]);
        }
        i += 1;
    }
    let mut w = Writer::new();
    w.write_tlv(SEQUENCE_TAG, innerw.as_bytes());
    let out = w.into_bytes();
    proof {
        assert(Seq::<u8>::empty() + record_bytes(fields@, vals_view(values@)) =~= record_bytes(
            fields@,
            vals_view(values@),
        ));
    }
    out
}

/// Whether a variant accepts a unit bearing this leading tag: the static
/// dispatch predicate of union decoding.
pub fn can_parse(v: &VariantSchema, tag: u8) -> (r: bool)
    requires
        mode_wf(v.mode),
    ensures
        r == (tag == resolved_tag(v.mode, v.tag)),
{
    let rt = match v.mode {
        TagMode::Regular => v.tag,
        TagMode::Explicit(n) => explicit_tag(n),
        TagMode::Implicit(n) => implicit_tag(n, v.tag),
    };
    tag == rt
}

/// Decodes a tagged union: one unit spanning the whole input, routed to the
/// first declared variant whose resolved tag matches; a unit no variant
/// accepts is `UnexpectedTag` with the tag found.
pub fn decode_choice(data: &[u8], shape: &str, variants: &Vec<VariantSchema>) -> (r: Result<
    (usize, Element),
    ParseError,
>)
    requires
        variants_wf(variants@),
    ensures
        match r {
            Ok(p) => spec_choice(variants@, data@) == Some((p.0 as int, p.1@)),
            Err(_) => spec_choice(variants@, data@) is None,
        },
        spec_tlv(data@) matches TlvShape::Unit { tag, header, length } ==> ((header + length
            == data@.len() && first_match(variants@, tag, 0) == variants@.len()) ==> (r matches Err(
        e) && e.spec_kind() == (ParseErrorKind::UnexpectedTag { actual: tag }))),
{
    let mut p = Parser::new(data);
    let tlv = match p.read_tlv() {
        Ok(t) => t,
        Err(e) => {
            return Err(e);
        },
    };
    if !p.is_empty() {
        return Err(ParseError::new(ParseErrorKind::ExtraData));
    }
    let actual = tlv.tag();
    let n = variants.len();
    let mut i: usize = 0;
    while i < n
        invariant
            n == variants@.len(),
            i <= n,
            variants_wf(variants@),
            spec_tlv(data@) matches TlvShape::Unit { tag, header, length } && tag == actual
                && header + length == data@.len(),
            first_match(variants@, actual, 0) == first_match(variants@, actual, i as int),
        decreases n - i,
    {
        if can_parse(&variants[i], actual) {
            proof {
                assert(first_match(variants@, actual, i as int) == i);
            }
            let mut q = Parser::new(data);
            match read_tagged_element(&mut q, variants[i].mode, variants[i].tag) {
                Ok(e) => {
                    return Ok((i, e));
                },
                Err(e) => {
                    return Err(e.add_location(field_label(shape, variants[i].name.as_str())));
                },
            }
        }
        i += 1;
    }
    Err(ParseError::new(ParseErrorKind::UnexpectedTag { actual }))
}

/// Encodes a tagged union value: the chosen variant's element under its
/// mode.
pub fn encode_choice(variants: &Vec<VariantSchema>, chosen: usize, e: &Element) -> (r: Vec<u8>)
    requires
        variants_wf(variants@),
        chosen < variants@.len(),
    ensures
        r@ == mode_bytes(variants@[chosen as int].mode, e@),
{
    let mut w = Writer::new();
    write_tagged_element(&mut w, variants[chosen].mode, e);
    let out = w.into_bytes();
    proof {
        assert(Seq::<u8>::empty() + mode_bytes(variants@[chosen as int].mode, e@) =~= mode_bytes(
            variants@[chosen as int].mode,
            e@,
        ));
    }
    out
}

} // verus!
