//! The segment and field model: the structural parser for one line of the
//! message, and the flat-key encoder.
//!
//! A segment is a name plus a mapping from 1-based field index to field,
//! contiguous from 1 to the highest index in the source line. A field is
//! either a leaf value, a list of components, or a list of repetitions, each
//! repetition being itself a leaf or a component list.

use vstd::prelude::*;

use std::collections::BTreeMap;

use crate::escape::{spec_unescape, Hl7EscapeHandler};
use crate::text::{push_char, spec_decimal, spec_split, split_chars, str_eq, usize_to_string};

verus! {

/// The specification-level shape of one repetition: a leaf value, possibly
/// subdivided into components.
#[verifier::ext_equal]
pub ghost struct RepV {
    pub value: Seq<char>,
    pub components: Option<Seq<Seq<char>>>,
}

/// The specification-level shape of one field.
#[verifier::ext_equal]
pub ghost struct FieldV {
    pub value: Seq<char>,
    pub components: Option<Seq<Seq<char>>>,
    pub repetitions: Option<Seq<RepV>>,
}

/// The specification-level shape of one segment: its name and its fields in
/// index order (entry `i` is the field at 1-based index `i + 1`).
#[verifier::ext_equal]
pub ghost struct SegV {
    pub name: Seq<char>,
    pub fields: Seq<FieldV>,
}

/// One field of a segment. At most one of `components` and `repetitions` is
/// present, and a repetition never nests further repetitions; see
/// [`Hl7Field::wf`].
#[derive(Debug)]
pub struct Hl7Field {
    pub value: String,
    pub components: Option<Vec<String>>,
    pub repetitions: Option<Vec<Hl7Field>>,
}

/// One segment: a name and its fields keyed by 1-based index.
#[derive(Debug)]
pub struct Hl7Segment {
    pub segment_name: String,
    pub fields: BTreeMap<usize, Hl7Field>,
}

pub open spec fn opt_components_view(c: Option<Vec<String>>) -> Option<Seq<Seq<char>>> {
    match c {
        Some(v) => Some(v.deep_view()),
        None => None,
    }
}

/// The view of a field used as one repetition: its nested repetitions, if
/// any, are not part of the model.
pub open spec fn rep_view(f: Hl7Field) -> RepV {
    RepV { value: f.value@, components: opt_components_view(f.components) }
}

impl View for Hl7Field {
    type V = FieldV;

    open spec fn view(&self) -> FieldV {
        FieldV {
            value: self.value@,
            components: opt_components_view(self.components),
            repetitions: match self.repetitions {
                Some(rs) => Some(rs@.map_values(|r: Hl7Field| rep_view(r))),
                None => None,
            },
        }
    }
}

impl Hl7Field {
    /// The structural invariant: a field is never simultaneously components
    /// and repetitions, and repetitions do not nest.
    pub open spec fn wf(&self) -> bool {
        &&& !(self.components is Some && self.repetitions is Some)
        &&& match self.repetitions {
            Some(rs) => forall|k: int|
                0 <= k < rs@.len() ==> (#[trigger] rs@[k]).repetitions is None,
            None => true,
        }
    }
}

impl View for Hl7Segment {
    type V = SegV;

    open spec fn view(&self) -> SegV {
        SegV {
            name: self.segment_name@,
            fields: Seq::new(self.fields@.len(), |i: int| self.fields@[(i + 1) as usize]@),
        }
    }
}

impl Hl7Segment {
    /// The structural invariant: field indices are contiguous from 1 to the
    /// number of fields, and every field is well formed.
    pub open spec fn wf(&self) -> bool {
        &&& self.fields@.dom().finite()
        &&& forall|k: usize|
            #![trigger self.fields@.dom().contains(k)]
            self.fields@.dom().contains(k) <==> 1 <= k <= self.fields@.len()
        &&& forall|k: usize| #[trigger] self.fields@.dom().contains(k) ==> self.fields@[k].wf()
    }
}

/// The handler configuration as seen by the parser: `None` means purely
/// syntactic splitting with the default separators.
pub open spec fn opt_handler(o: Option<&Hl7EscapeHandler>) -> Option<Hl7EscapeHandler> {
    match o {
        Some(h) => Some(*h),
        None => None,
    }
}

/// The repetition separator in use.
pub open spec fn spec_rep_sep(ho: Option<Hl7EscapeHandler>) -> char {
    match ho {
        Some(h) => h.repetition_separator,
        None => '~',
    }
}

/// The component separator in use.
pub open spec fn spec_comp_sep(ho: Option<Hl7EscapeHandler>) -> char {
    match ho {
        Some(h) => h.component_separator,
        None => '^',
    }
}

/// The stored (domain-level) value of a piece of raw text: unescaped when a
/// handler is in use, the raw text itself otherwise.
pub open spec fn spec_piece_value(ho: Option<Hl7EscapeHandler>, s: Seq<char>) -> Seq<char> {
    match ho {
        Some(h) => spec_unescape(h, s),
        None => s,
    }
}

/// The default encoding-characters text. A field whose value equals this
/// text is always kept as a leaf, protecting the header's own
/// encoding-characters field from being split.
pub open spec fn guard_text() -> Seq<char> {
    seq!['^', '~', '\\', '&']
}

/// One repetition slice parsed: component splitting only.
pub open spec fn spec_parse_rep(ho: Option<Hl7EscapeHandler>, s: Seq<char>) -> RepV {
    let v = spec_piece_value(ho, s);
    let cs = spec_comp_sep(ho);
    if v == guard_text() {
        RepV { value: v, components: None }
    } else if v.contains(cs) {
        RepV { value: v, components: Some(spec_split(v, cs)) }
    } else {
        RepV { value: v, components: None }
    }
}

/// One field parsed: the guard first, then repetition splitting on the raw
/// text, then component splitting.
pub open spec fn spec_parse_field(ho: Option<Hl7EscapeHandler>, s: Seq<char>) -> FieldV {
    let v = spec_piece_value(ho, s);
    if v == guard_text() {
        FieldV { value: v, components: None, repetitions: None }
    } else if s.contains(spec_rep_sep(ho)) {
        FieldV {
            value: s,
            components: None,
            repetitions: Some(
                spec_split(s, spec_rep_sep(ho)).map_values(|p: Seq<char>| spec_parse_rep(ho, p)),
            ),
        }
    } else {
        let r = spec_parse_rep(ho, s);
        FieldV { value: r.value, components: r.components, repetitions: None }
    }
}

/// One line parsed: the first pipe-separated token is the segment name, the
/// following tokens are the fields at indices 1, 2, and so on.
pub open spec fn spec_parse_segment(ho: Option<Hl7EscapeHandler>, line: Seq<char>) -> SegV {
    let parts = spec_split(line, '|');
    SegV {
        name: parts[0],
        fields: parts.drop_first().map_values(|p: Seq<char>| spec_parse_field(ho, p)),
    }
}

fn is_guard_value(v: &str) -> (r: bool)
    ensures
        r == (v@ == guard_text()),
{
    proof {
        reveal_strlit("^~\\&");
        assert("^~\\&"@ =~= guard_text());
    }
    str_eq(v, "^~\\&")
}

/// Parses one repetition slice: the stored value plus optional components.
fn parse_rep(escape_handler: Option<&Hl7EscapeHandler>, s: &str) -> (r: Hl7Field)
    ensures
        rep_view(r) == spec_parse_rep(opt_handler(escape_handler), s@),
        r.repetitions is None,
{
    let ghost ho = opt_handler(escape_handler);
    let v = match escape_handler {
        Some(h) => h.unescape(s),
        None => s.to_owned(),
    };
    let csep = match escape_handler {
        Some(h) => h.get_component_separator(),
        None => '^',
    };
    proof {
        assert(v@ == spec_piece_value(ho, s@));
        assert(csep == spec_comp_sep(ho));
    }
    if is_guard_value(v.as_str()) {
        let r = Hl7Field { value: v, components: None, repetitions: None };
        proof {
            assert(rep_view(r) =~~= spec_parse_rep(ho, s@));
        }
        return r;
    }
    if crate::text::contains_char(v.as_str(), csep) {
        let components = split_chars(v.as_str(), csep);
        let r = Hl7Field { value: v, components: Some(components), repetitions: None };
        proof {
            assert(rep_view(r) =~~= spec_parse_rep(ho, s@));
        }
        r
    } else {
        let r = Hl7Field { value: v, components: None, repetitions: None };
        proof {
            assert(rep_view(r) =~~= spec_parse_rep(ho, s@));
        }
        r
    }
}

impl Hl7Field {
    /// Parses one field: the guarded encoding-characters value stays a leaf;
    /// otherwise the raw text is split on the repetition separator, and each
    /// slice (or the whole text) on the component separator. Never fails:
    /// malformed input yields trivial structure.
    pub fn from_string(field_str: &str, escape_handler: Option<&Hl7EscapeHandler>) -> (r: Hl7Field)
        ensures
            r@ == spec_parse_field(opt_handler(escape_handler), field_str@),
            r.wf(),
    {
        let ghost ho = opt_handler(escape_handler);
        let rsep = match escape_handler {
            Some(h) => h.get_repetition_separator(),
            None => '~',
        };
        let value_full = match escape_handler {
            Some(h) => h.unescape(field_str),
            None => field_str.to_owned(),
        };
        proof {
            assert(value_full@ == spec_piece_value(ho, field_str@));
            assert(rsep == spec_rep_sep(ho));
        }
        if is_guard_value(value_full.as_str()) {
            let r = Hl7Field { value: value_full, components: None, repetitions: None };
            proof {
                assert(r@ =~~= spec_parse_field(ho, field_str@));
            }
            return r;
        }
        if crate::text::contains_char(field_str, rsep) {
            let pieces = split_chars(field_str, rsep);
            let mut reps: Vec<Hl7Field> = Vec::new();
            let mut i: usize = 0;
            while i < pieces.len()
                invariant
                    ho == opt_handler(escape_handler),
                    i <= pieces@.len(),
                    reps@.len() == i,
                    forall|k: int|
                        0 <= k < i ==> rep_view(#[trigger] reps@[k]) == spec_parse_rep(
                            ho,
                            pieces.deep_view()[k],
                        ),
                    forall|k: int| 0 <= k < i ==> (#[trigger] reps@[k]).repetitions is None,
                decreases pieces@.len() - i,
            {
                let piece_str: &String = &pieces[i];
                proof {
                    assert(piece_str@ == pieces@[i as int]@);
                }
                let piece = parse_rep(escape_handler, piece_str.as_str());
                let ghost prev = reps@;
                reps.push(piece);
                proof {
                    assert(pieces.deep_view()[i as int] == pieces@[i as int]@);
                    assert(reps@[i as int] == piece);
                    assert(rep_view(piece) == spec_parse_rep(ho, pieces.deep_view()[i as int]));
                    assert(forall|k: int| 0 <= k < i ==> reps@[k] == #[trigger] prev[k]);
                }
                i += 1;
            }
            let r = Hl7Field {
                value: field_str.to_owned(),
                components: None,
                repetitions: Some(reps),
            };
            proof {
                let pf = spec_split(field_str@, spec_rep_sep(ho)).map_values(
                    |p: Seq<char>| spec_parse_rep(ho, p),
                );
                assert(r@.repetitions == Some(r.repetitions.unwrap()@.map_values(
                    |x: Hl7Field| rep_view(x),
                )));
                assert(r.repetitions.unwrap()@.map_values(|x: Hl7Field| rep_view(x)) =~= pf) by {
                    assert(pieces.deep_view() == spec_split(field_str@, spec_rep_sep(ho)));
                }
                assert(r@ =~~= spec_parse_field(ho, field_str@));
            }
            r
        } else {
            let r = parse_rep(escape_handler, field_str);
            proof {
                assert(r@ =~~= spec_parse_field(ho, field_str@));
            }
            r
        }
    }
}

impl Hl7Segment {
    /// Parses one segment line. The first `|`-separated token is the name;
    /// the rest become fields at indices 1 and up. Never fails.
    pub fn from_string(segment_str: &str, escape_handler: Option<&Hl7EscapeHandler>) -> (r:
        Hl7Segment)
        ensures
            r@ == spec_parse_segment(opt_handler(escape_handler), segment_str@),
            r.wf(),
    {
        let ghost ho = opt_handler(escape_handler);
        let parts = split_chars(segment_str, '|');
        proof {
            crate::text::lemma_spec_split_from_nonempty(segment_str@, '|', 0);
            assert(parts@.len() >= 1);
        }
        let segment_name = parts[0].clone();
        let mut fields: BTreeMap<usize, Hl7Field> = BTreeMap::new();
        let mut idx: usize = 1;
        while idx < parts.len()
            invariant
                ho == opt_handler(escape_handler),
                1 <= idx <= parts@.len(),
                fields@.dom().finite(),
                fields@.len() == idx - 1,
                forall|k: usize|
                    #![trigger fields@.dom().contains(k)]
                    fields@.dom().contains(k) <==> 1 <= k < idx,
                forall|k: usize|
                    #[trigger] fields@.dom().contains(k) ==> fields@[k]@ == spec_parse_field(
                        ho,
                        parts.deep_view()[k as int],
                    ) && fields@[k].wf(),
            decreases parts@.len() - idx,
        {
            let part_str: &String = &parts[idx];
            proof {
                assert(part_str@ == parts@[idx as int]@);
            }
            let field = Hl7Field::from_string(part_str.as_str(), escape_handler);
            proof {
                assert(parts.deep_view()[idx as int] == parts@[idx as int]@);
                assert(!fields@.dom().contains(idx));
            }
            let ghost prev = fields@;
            fields.insert(idx, field);
            proof {
                assert(vstd::laws_cmp::obeys_cmp::<usize>());
                assert(fields@ == prev.insert(idx, field));
                assert(fields@[idx] == field);
                assert(field@ == spec_parse_field(ho, parts.deep_view()[idx as int]));
                assert(fields@[idx]@ == spec_parse_field(ho, parts.deep_view()[idx as int]));
                assert(fields@[idx].wf());
                assert(forall|k: usize|
                    #![trigger fields@.dom().contains(k)]
                    k != idx && prev.dom().contains(k) ==> fields@.dom().contains(k) && fields@[k]
                        == prev[k]);
                assert(fields@.dom() =~= prev.dom().insert(idx));
                assert(fields@.len() == idx);
            }
            idx += 1;
        }
        let r = Hl7Segment { segment_name, fields };
        proof {
            let sp = spec_parse_segment(ho, segment_str@);
            assert(parts.deep_view()[0int] == parts@[0int]@);
            assert(r@.fields =~= sp.fields) by {
                assert(r.fields@.len() == parts@.len() - 1);
                assert(sp.fields.len() == parts@.len() - 1);
                assert forall|i: int| 0 <= i < r@.fields.len() implies r@.fields[i] == sp.fields[i]
                by {
                    assert(fields@.dom().contains((i + 1) as usize));
                    assert(spec_split(segment_str@, '|').drop_first()[i] == parts.deep_view()[i
                        + 1]);
                }
            }
        }
        r
    }
}

/// The view of a list of key-value pairs: each string seen as its character
/// sequence.
pub open spec fn pairs_view(v: Seq<(String, String)>) -> Seq<(Seq<char>, Seq<char>)> {
    v.map_values(|p: (String, String)| (p.0@, p.1@))
}

/// The key under which a segment's name is emitted.
pub open spec fn segment_name_key() -> Seq<char> {
    "segment_name"@
}

/// The flat key for a whole-field leaf value.
pub open spec fn spec_field_key(idx: nat) -> Seq<char> {
    spec_decimal(idx)
}

/// The flat key for a whole-repetition leaf value.
pub open spec fn spec_rep_key(idx: nat, r: nat) -> Seq<char> {
    spec_decimal(idx) + seq!['['] + spec_decimal(r) + seq![']']
}

/// The flat key for a component value, inside a repetition or not.
pub open spec fn spec_comp_key(idx: nat, rep: Option<nat>, c: nat) -> Seq<char> {
    match rep {
        None => spec_decimal(idx) + seq!['.'] + spec_decimal(c),
        Some(r) => spec_rep_key(idx, r) + seq!['.'] + spec_decimal(c),
    }
}

pub open spec fn opt_nat(o: Option<usize>) -> Option<nat> {
    match o {
        Some(r) => Some(r as nat),
        None => None,
    }
}

/// One pair per component, components addressed 1-based.
pub open spec fn spec_comp_pairs(idx: nat, rep: Option<nat>, cs: Seq<Seq<char>>) -> Seq<
    (Seq<char>, Seq<char>),
>
    decreases cs.len(),
{
    if cs.len() == 0 {
        Seq::empty()
    } else {
        spec_comp_pairs(idx, rep, cs.drop_last()) + seq![
            (spec_comp_key(idx, rep, cs.len() as nat), cs.last()),
        ]
    }
}

/// The pairs of one repetition: per component if it has components, one
/// whole-repetition pair otherwise.
pub open spec fn spec_encode_rep(idx: nat, r: nat, rep: RepV) -> Seq<(Seq<char>, Seq<char>)> {
    match rep.components {
        Some(cs) => spec_comp_pairs(idx, Some(r), cs),
        None => seq![(spec_rep_key(idx, r), rep.value)],
    }
}

pub open spec fn spec_encode_reps(idx: nat, rs: Seq<RepV>) -> Seq<(Seq<char>, Seq<char>)>
    decreases rs.len(),
{
    if rs.len() == 0 {
        Seq::empty()
    } else {
        spec_encode_reps(idx, rs.drop_last()) + spec_encode_rep(
            idx,
            (rs.len() - 1) as nat,
            rs.last(),
        )
    }
}

/// The pairs of one field at 1-based index `idx`.
pub open spec fn spec_encode_field(idx: nat, f: FieldV) -> Seq<(Seq<char>, Seq<char>)> {
    match f.repetitions {
        Some(rs) => spec_encode_reps(idx, rs),
        None => match f.components {
            Some(cs) => spec_comp_pairs(idx, None, cs),
            None => seq![(spec_field_key(idx), f.value)],
        },
    }
}

/// The pairs of the fields in index order, entry `i` carrying index `i + 1`.
pub open spec fn spec_encode_fields(fs: Seq<FieldV>) -> Seq<(Seq<char>, Seq<char>)>
    decreases fs.len(),
{
    if fs.len() == 0 {
        Seq::empty()
    } else {
        spec_encode_fields(fs.drop_last()) + spec_encode_field(fs.len() as nat, fs.last())
    }
}

/// The flat-key encoding of a whole segment: the `segment_name` pair first,
/// then the fields in increasing index order.
pub open spec fn spec_encode_segment(seg: SegV) -> Seq<(Seq<char>, Seq<char>)> {
    seq![(segment_name_key(), seg.name)] + spec_encode_fields(seg.fields)
}

fn make_rep_key(idx: usize, r: usize) -> (k: String)
    ensures
        k@ == spec_rep_key(idx as nat, r as nat),
{
    let mut k = usize_to_string(idx);
    push_char(&mut k, '[');
    let rs = usize_to_string(r);
    k.append(rs.as_str());
    push_char(&mut k, ']');
    proof {
        assert(k@ =~= spec_rep_key(idx as nat, r as nat));
    }
    k
}

fn make_comp_key(idx: usize, rep: Option<usize>, c: usize) -> (k: String)
    ensures
        k@ == spec_comp_key(idx as nat, opt_nat(rep), c as nat),
{
    let mut k = match rep {
        Some(r) => make_rep_key(idx, r),
        None => usize_to_string(idx),
    };
    push_char(&mut k, '.');
    let cs = usize_to_string(c);
    k.append(cs.as_str());
    proof {
        assert(k@ =~= spec_comp_key(idx as nat, opt_nat(rep), c as nat));
    }
    k
}

/// Appends one pair per component to `out`.
fn push_comp_pairs(out: &mut Vec<(String, String)>, idx: usize, rep: Option<usize>, cs: &Vec<
    String,
>)
    ensures
        pairs_view(final(out)@) == pairs_view(old(out)@) + spec_comp_pairs(
            idx as nat,
            opt_nat(rep),
            cs.deep_view(),
        ),
{
    let mut c: usize = 0;
    while c < cs.len()
        invariant
            c <= cs@.len(),
            pairs_view(out@) == pairs_view(old(out)@) + spec_comp_pairs(
                idx as nat,
                opt_nat(rep),
                cs.deep_view().take(c as int),
            ),
        decreases cs@.len() - c,
    {
        let key = make_comp_key(idx, rep, c + 1);
        let ghost prev = out@;
        let value = cs[c].clone();
        out.push((key, value));
        proof {
            let dv = cs.deep_view();
            assert(dv[c as int] == cs@[c as int]@);
            assert(dv.take(c + 1).drop_last() =~= dv.take(c as int));
            assert(dv.take(c + 1).last() == dv[c as int]);
            assert(dv.take(c + 1).len() == c + 1);
            assert(pairs_view(out@) =~= pairs_view(prev) + seq![
                (spec_comp_key(idx as nat, opt_nat(rep), (c + 1) as nat), dv[c as int]),
            ]);
        }
        c += 1;
    }
    proof {
        assert(cs.deep_view().take(cs@.len() as int) =~= cs.deep_view());
    }
}

/// Appends the pairs of one field to `out`.
fn push_field_pairs(out: &mut Vec<(String, String)>, idx: usize, f: &Hl7Field)
    requires
        f.wf(),
    ensures
        pairs_view(final(out)@) == pairs_view(old(out)@) + spec_encode_field(idx as nat, f@),
{
    match &f.repetitions {
        Some(rs) => {
            let ghost grs = f@.repetitions.unwrap();
            let mut r: usize = 0;
            while r < rs.len()
                invariant
                    grs == rs@.map_values(|x: Hl7Field| rep_view(x)),
                    r <= rs@.len(),
                    pairs_view(out@) == pairs_view(old(out)@) + spec_encode_reps(
                        idx as nat,
                        grs.take(r as int),
                    ),
                decreases rs@.len() - r,
            {
                proof {
                    assert(grs.take(r + 1).drop_last() =~= grs.take(r as int));
                    assert(grs.take(r + 1).last() == grs[r as int]);
                    assert(grs[r as int] == rep_view(rs@[r as int]));
                }
                let rep = &rs[r];
                match &rep.components {
                    Some(cs) => {
                        push_comp_pairs(out, idx, Some(r), cs);
                        proof {
                            assert(rep_view(rs@[r as int]).components == Some(cs.deep_view()));
                        }
                    },
                    None => {
                        let key = make_rep_key(idx, r);
                        let ghost prev = out@;
                        out.push((key, rep.value.clone()));
                        proof {
                            assert(rep_view(rs@[r as int]).components is None);
                            assert(pairs_view(out@) =~= pairs_view(prev) + seq![
                                (
                                    spec_rep_key(idx as nat, r as nat),
                                    rep_view(rs@[r as int]).value,
                                ),
                            ]);
                        }
                    },
                }
                r += 1;
            }
            proof {
                assert(grs.take(rs@.len() as int) =~= grs);
            }
        },
        None => {
            match &f.components {
                Some(cs) => {
                    push_comp_pairs(out, idx, None, cs);
                    proof {
                        assert(f@.components == Some(cs.deep_view()));
                    }
                },
                None => {
                    let key = usize_to_string(idx);
                    let ghost prev = out@;
                    out.push((key, f.value.clone()));
                    proof {
                        assert(pairs_view(out@) =~= pairs_view(prev) + seq![
                            (spec_field_key(idx as nat), f@.value),
                        ]);
                    }
                },
            }
        },
    }
}

impl Hl7Segment {
    /// Encodes the segment as flat key-value pairs: always the
    /// `segment_name` pair, then, per field index in increasing order, one
    /// pair per component, per repetition, or for the whole leaf value. No
    /// pair is emitted for absent fields.
    pub fn to_json(&self) -> (r: Vec<(String, String)>)
        requires
            self.wf(),
        ensures
            pairs_view(r@) == spec_encode_segment(self@),
    {
        let mut out: Vec<(String, String)> = Vec::new();
        let name_key = String::from_str("segment_name");
        out.push((name_key, self.segment_name.clone()));
        proof {
            assert(pairs_view(out@) =~= seq![(segment_name_key(), self@.name)]);
        }
        let n = self.fields.len();
        proof {
            assert(n == self@.fields.len());
        }
        let mut i: usize = 0;
        while i < n
            invariant
                self.wf(),
                n == self.fields@.len(),
                i <= n,
                pairs_view(out@) == seq![(segment_name_key(), self@.name)] + spec_encode_fields(
                    self@.fields.take(i as int),
                ),
            decreases n - i,
        {
            let idx = i + 1;
            proof {
                assert(self.fields@.dom().contains(idx));
            }
            let fopt = self.fields.get(&idx);
            match fopt {
                Some(f) => {
                    proof {
                        assert(self.fields@[idx] == *f);
                        assert(f.wf());
                        assert(self@.fields[i as int] == f@);
                        assert(self@.fields.take(i + 1).drop_last() =~= self@.fields.take(i as int));
                        assert(self@.fields.take(i + 1).last() == self@.fields[i as int]);
                        assert(self@.fields.take(i + 1).len() == i + 1);
                    }
                    push_field_pairs(&mut out, idx, f);
                },
                None => {
                    proof {
                        assert(false);
                    }
                },
            }
            i += 1;
        }
        proof {
            assert(self@.fields.take(n as int) =~= self@.fields);
        }
        out
    }
}

} // verus!
