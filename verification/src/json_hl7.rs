//! The flat-key decoder: reconstructs raw segment text from flat key-value
//! mappings, re-escaping values and re-assembling the field, repetition and
//! component hierarchy from the key syntax alone.

use vstd::prelude::*;

use crate::escape::{create_default_escape_handler, spec_default_handler, spec_escape,
    Hl7EscapeHandler};
use crate::segments::{pairs_view, segment_name_key};
use crate::text::{join_chars, spec_join, str_eq};

verus! {

/// A flat key parsed: a field index, an optional repetition index, an
/// optional component index.
pub ghost struct FlatKeyV {
    pub field: nat,
    pub rep: Option<nat>,
    pub comp: Option<nat>,
}

/// One addressed value collected from a mapping, the value already escaped.
/// A missing repetition index defaults to 0; a missing component index is
/// recorded as 0, meaning the whole value.
pub ghost struct EntryV {
    pub field: nat,
    pub rep: nat,
    pub comp: nat,
    pub value: Seq<char>,
}

pub open spec fn is_digit(c: char) -> bool {
    '0' <= c && c <= '9'
}

/// The first index at or after `j` that is not a decimal digit, or `s.len()`.
pub open spec fn digits_end(s: Seq<char>, j: int) -> int
    decreases s.len() - j when 0 <= j <= s.len()
{
    if j >= s.len() {
        j
    } else if is_digit(s[j]) {
        digits_end(s, j + 1)
    } else {
        j
    }
}

pub proof fn lemma_digits_end_bounds(s: Seq<char>, j: int)
    requires
        0 <= j <= s.len(),
    ensures
        j <= digits_end(s, j) <= s.len(),
        digits_end(s, j) < s.len() ==> !is_digit(s[digits_end(s, j)]),
        forall|k: int| j <= k < digits_end(s, j) ==> is_digit(s[k]),
    decreases s.len() - j,
{
    if j < s.len() && is_digit(s[j]) {
        lemma_digits_end_bounds(s, j + 1);
    }
}

/// The numeric value of a run of decimal digits.
pub open spec fn dec_value(ds: Seq<char>) -> nat
    decreases ds.len(),
{
    if ds.len() == 0 {
        0
    } else {
        (dec_value(ds.drop_last()) * 10 + (ds.last() as int - 48)) as nat
    }
}

/// Parses a flat key against the key grammar: a field index, optionally a
/// bracketed repetition index, optionally a dotted component index, nothing
/// else. Keys not of this shape yield `None`.
pub open spec fn spec_parse_flat_key(k: Seq<char>) -> Option<FlatKeyV> {
    let d1 = digits_end(k, 0);
    if d1 == 0 {
        None
    } else {
        let f = dec_value(k.subrange(0, d1));
        if d1 == k.len() {
            Some(FlatKeyV { field: f, rep: None, comp: None })
        } else if k[d1] == '[' {
            let d2 = digits_end(k, d1 + 1);
            if d2 == d1 + 1 {
                None
            } else if d2 >= k.len() || k[d2] != ']' {
                None
            } else {
                let r = dec_value(k.subrange(d1 + 1, d2));
                let p = d2 + 1;
                if p == k.len() {
                    Some(FlatKeyV { field: f, rep: Some(r), comp: None })
                } else if k[p] == '.' {
                    let d3 = digits_end(k, p + 1);
                    if d3 == p + 1 || d3 != k.len() {
                        None
                    } else {
                        Some(
                            FlatKeyV {
                                field: f,
                                rep: Some(r),
                                comp: Some(dec_value(k.subrange(p + 1, d3))),
                            },
                        )
                    }
                } else {
                    None
                }
            }
        } else if k[d1] == '.' {
            let d3 = digits_end(k, d1 + 1);
            if d3 == d1 + 1 || d3 != k.len() {
                None
            } else {
                Some(
                    FlatKeyV {
                        field: f,
                        rep: None,
                        comp: Some(dec_value(k.subrange(d1 + 1, d3))),
                    },
                )
            }
        } else {
            None
        }
    }
}

/// Whether every index of the key fits the machine word, as the executable
/// decoder requires; keys with larger indices are ignored.
pub open spec fn key_fits(fk: FlatKeyV) -> bool {
    &&& fk.field <= usize::MAX
    &&& (fk.rep matches Some(r) ==> r <= usize::MAX)
    &&& (fk.comp matches Some(c) ==> c <= usize::MAX)
}

/// The entries contributed by one pair: none for the `segment_name` pair,
/// none for a key outside the grammar or beyond the machine word, otherwise
/// one entry with the escaped value.
pub open spec fn spec_entry_of(h: Hl7EscapeHandler, p: (Seq<char>, Seq<char>)) -> Seq<EntryV> {
    if p.0 == segment_name_key() {
        Seq::empty()
    } else {
        match spec_parse_flat_key(p.0) {
            Some(fk) => if key_fits(fk) {
                seq![
                    EntryV {
                        field: fk.field,
                        rep: match fk.rep {
                            Some(r) => r,
                            None => 0,
                        },
                        comp: match fk.comp {
                            Some(c) => c,
                            None => 0,
                        },
                        value: spec_escape(h, p.1),
                    },
                ]
            } else {
                Seq::empty()
            },
            None => Seq::empty(),
        }
    }
}

/// All entries of a mapping, in pair order.
pub open spec fn spec_entries(h: Hl7EscapeHandler, ps: Seq<(Seq<char>, Seq<char>)>) -> Seq<EntryV>
    decreases ps.len(),
{
    if ps.len() == 0 {
        Seq::empty()
    } else {
        spec_entries(h, ps.drop_last()) + spec_entry_of(h, ps.last())
    }
}

/// The segment name carried by the mapping: the value of the last
/// `segment_name` pair, if any.
pub open spec fn spec_name_of(ps: Seq<(Seq<char>, Seq<char>)>) -> Option<Seq<char>>
    decreases ps.len(),
{
    if ps.len() == 0 {
        None
    } else if ps.last().0 == segment_name_key() {
        Some(ps.last().1)
    } else {
        spec_name_of(ps.drop_last())
    }
}

/// The value stored at an address, the last entry winning.
pub open spec fn spec_slot(es: Seq<EntryV>, f: nat, r: nat, c: nat) -> Option<Seq<char>>
    decreases es.len(),
{
    if es.len() == 0 {
        None
    } else if es.last().field == f && es.last().rep == r && es.last().comp == c {
        Some(es.last().value)
    } else {
        spec_slot(es.drop_last(), f, r, c)
    }
}

pub open spec fn spec_has_field(es: Seq<EntryV>, f: nat) -> bool
    decreases es.len(),
{
    if es.len() == 0 {
        false
    } else {
        es.last().field == f || spec_has_field(es.drop_last(), f)
    }
}

pub open spec fn spec_has_rep(es: Seq<EntryV>, f: nat, r: nat) -> bool
    decreases es.len(),
{
    if es.len() == 0 {
        false
    } else {
        (es.last().field == f && es.last().rep == r) || spec_has_rep(es.drop_last(), f, r)
    }
}

/// The greatest field index among the entries, 0 when there is none.
pub open spec fn spec_max_field(es: Seq<EntryV>) -> nat
    decreases es.len(),
{
    if es.len() == 0 {
        0
    } else {
        let rest = spec_max_field(es.drop_last());
        if es.last().field > rest {
            es.last().field
        } else {
            rest
        }
    }
}

/// The greatest repetition index used under field `f`, 0 when none is.
pub open spec fn spec_max_rep(es: Seq<EntryV>, f: nat) -> nat
    decreases es.len(),
{
    if es.len() == 0 {
        0
    } else {
        let rest = spec_max_rep(es.drop_last(), f);
        if es.last().field == f && es.last().rep > rest {
            es.last().rep
        } else {
            rest
        }
    }
}

/// The greatest component index used under field `f`, repetition `r`, 0 when
/// only whole values are addressed there.
pub open spec fn spec_max_comp(es: Seq<EntryV>, f: nat, r: nat) -> nat
    decreases es.len(),
{
    if es.len() == 0 {
        0
    } else {
        let rest = spec_max_comp(es.drop_last(), f, r);
        if es.last().field == f && es.last().rep == r && es.last().comp > rest {
            es.last().comp
        } else {
            rest
        }
    }
}

pub open spec fn opt_or_empty(o: Option<Seq<char>>) -> Seq<char> {
    match o {
        Some(s) => s,
        None => Seq::empty(),
    }
}

/// The text of one repetition: component slots 1 to the greatest component
/// index joined on the component separator (missing slots empty), or the
/// whole-value slot when no component is addressed, or empty when the
/// repetition is absent.
pub open spec fn spec_rep_text(h: Hl7EscapeHandler, es: Seq<EntryV>, f: nat, r: nat) -> Seq<char> {
    if !spec_has_rep(es, f, r) {
        Seq::empty()
    } else {
        let mc = spec_max_comp(es, f, r);
        if mc == 0 {
            opt_or_empty(spec_slot(es, f, r, 0))
        } else {
            spec_join(
                Seq::new(mc, |c: int| opt_or_empty(spec_slot(es, f, r, (c + 1) as nat))),
                h.component_separator,
            )
        }
    }
}

/// The text of one field: repetitions 0 to the greatest repetition index
/// joined on the repetition separator, or empty for an absent field.
pub open spec fn spec_field_text(h: Hl7EscapeHandler, es: Seq<EntryV>, f: nat) -> Seq<char> {
    if !spec_has_field(es, f) {
        Seq::empty()
    } else {
        spec_join(
            Seq::new(
                spec_max_rep(es, f) + 1,
                |r: int| spec_rep_text(h, es, f, r as nat),
            ),
            h.repetition_separator,
        )
    }
}

/// The raw segment text decoded from one mapping: the segment name (or an
/// empty leading token), then every field slot from 1 to the greatest field
/// index, joined on the field separator.
pub open spec fn spec_decode_pairs(h: Hl7EscapeHandler, ps: Seq<(Seq<char>, Seq<char>)>) -> Seq<
    char,
> {
    let es = spec_entries(h, ps);
    spec_join(
        seq![opt_or_empty(spec_name_of(ps))] + Seq::new(
            spec_max_field(es),
            |f: int| spec_field_text(h, es, (f + 1) as nat),
        ),
        h.field_separator,
    )
}

/// The views of a sequence of mappings.
pub open spec fn maps_view(v: Seq<Vec<(String, String)>>) -> Seq<Seq<(Seq<char>, Seq<char>)>> {
    v.map_values(|m: Vec<(String, String)>| pairs_view(m@))
}

/// The whole message decoded: one line per mapping, newline-joined.
pub open spec fn spec_decode_message(h: Hl7EscapeHandler, ms: Seq<Seq<(Seq<char>, Seq<char>)>>)
    -> Seq<char> {
    spec_join(ms.map_values(|ps: Seq<(Seq<char>, Seq<char>)>| spec_decode_pairs(h, ps)), '\n')
}

fn is_digit_char(c: char) -> (r: bool)
    ensures
        r == is_digit(c),
{
    let u = c as u32;
    48 <= u && u <= 57
}

/// Finds the end of the digit run of `k` starting at `j`.
fn find_digits_end(k: &str, j: usize) -> (e: usize)
    requires
        j <= k@.len(),
    ensures
        e == digits_end(k@, j as int),
{
    let n = k.unicode_len();
    let mut e = j;
    while e < n && is_digit_char(k.get_char(e))
        invariant
            n == k@.len(),
            j <= e <= n,
            digits_end(k@, j as int) == digits_end(k@, e as int),
        decreases n - e,
    {
        proof {
            assert(is_digit(k@[e as int]));
        }
        e += 1;
    }
    proof {
        assert(digits_end(k@, e as int) == e);
    }
    e
}

/// Parses the digit run `k[from .. to]` as a number, `None` on overflow.
fn parse_digits(k: &str, from: usize, to: usize) -> (r: Option<usize>)
    requires
        from < to <= k@.len(),
        forall|q: int| from <= q < to ==> is_digit(k@[q]),
    ensures
        match r {
            Some(v) => v == dec_value(k@.subrange(from as int, to as int)),
            None => dec_value(k@.subrange(from as int, to as int)) > usize::MAX,
        },
{
    let mut acc: usize = 0;
    let mut q = from;
    while q < to
        invariant
            from <= q <= to <= k@.len(),
            forall|x: int| from <= x < to ==> is_digit(k@[x]),
            acc == dec_value(k@.subrange(from as int, q as int)),
        decreases to - q,
    {
        let c = k.get_char(q);
        let d = (c as u32 - 48) as usize;
        proof {
            assert(is_digit(k@[q as int]));
            assert(d < 10);
        }
        if acc > (usize::MAX - d) / 10 {
            proof {
                lemma_dec_value_grows(k@, from as int, q + 1, to as int);
                assert(dec_value(k@.subrange(from as int, q + 1)) == acc * 10 + d) by {
                    assert(k@.subrange(from as int, q + 1).drop_last() =~= k@.subrange(
                        from as int,
                        q as int,
                    ));
                    assert(k@.subrange(from as int, q + 1).last() == k@[q as int]);
                };
                assert(acc * 10 + d > usize::MAX) by (nonlinear_arith)
                    requires
                        acc > (usize::MAX - d) / 10,
                        d < 10,
                        0 <= d,
                        acc >= 0,
                ;
            }
            return None;
        }
        acc = acc * 10 + d;
        proof {
            assert(k@.subrange(from as int, q + 1).drop_last() =~= k@.subrange(
                from as int,
                q as int,
            ));
            assert(k@.subrange(from as int, q + 1).last() == k@[q as int]);
        }
        q += 1;
    }
    proof {
        assert(k@.subrange(from as int, to as int) == k@.subrange(from as int, q as int));
    }
    Some(acc)
}

/// A later digit makes the value at least ten times larger: if the prefix up
/// to `q` already exceeds what fits, the whole run does too.
proof fn lemma_dec_value_grows(s: Seq<char>, from: int, q: int, to: int)
    requires
        0 <= from <= q <= to <= s.len(),
        forall|x: int| from <= x < to ==> is_digit(s[x]),
    ensures
        dec_value(s.subrange(from, to)) >= dec_value(s.subrange(from, q)),
    decreases to - q,
{
    if q < to {
        lemma_dec_value_grows(s, from, q + 1, to);
        assert(s.subrange(from, q + 1).drop_last() =~= s.subrange(from, q));
        assert(s.subrange(from, q + 1).last() == s[q]);
        assert(dec_value(s.subrange(from, q + 1)) == dec_value(s.subrange(from, q)) * 10 + (s[q]
            as int - 48));
        assert(dec_value(s.subrange(from, q)) * 10 >= dec_value(s.subrange(from, q))) by (nonlinear_arith);
    }
}

/// Parses one flat key; `None` for keys outside the grammar and for indices
/// beyond the machine word.
fn parse_flat_key(k: &str) -> (r: Option<(usize, Option<usize>, Option<usize>)>)
    ensures
        match r {
            Some(t) => spec_parse_flat_key(k@) matches Some(fk) && key_fits(fk) && t.0 == fk.field
                && crate::segments::opt_nat(t.1) == fk.rep && crate::segments::opt_nat(t.2)
                == fk.comp,
            None => spec_parse_flat_key(k@) is None || (spec_parse_flat_key(k@) matches Some(fk)
                && !key_fits(fk)),
        },
{
    let n = k.unicode_len();
    proof {
        lemma_digits_end_bounds(k@, 0);
    }
    let d1 = find_digits_end(k, 0);
    if d1 == 0 {
        return None;
    }
    let f = match parse_digits(k, 0, d1) {
        Some(v) => v,
        None => {
            return None;
        },
    };
    if d1 == n {
        return Some((f, None, None));
    }
    let c1 = k.get_char(d1);
    if c1 == '[' {
        proof {
            lemma_digits_end_bounds(k@, d1 + 1);
        }
        let d2 = find_digits_end(k, d1 + 1);
        if d2 == d1 + 1 {
            return None;
        }
        if d2 >= n || k.get_char(d2) != ']' {
            return None;
        }
        let rep = match parse_digits(k, d1 + 1, d2) {
            Some(v) => v,
            None => {
                return None;
            },
        };
        let p = d2 + 1;
        if p == n {
            return Some((f, Some(rep), None));
        }
        if k.get_char(p) == '.' {
            proof {
                lemma_digits_end_bounds(k@, p + 1);
            }
            let d3 = find_digits_end(k, p + 1);
            if d3 == p + 1 || d3 != n {
                return None;
            }
            let comp = match parse_digits(k, p + 1, d3) {
                Some(v) => v,
                None => {
                    return None;
                },
            };
            return Some((f, Some(rep), Some(comp)));
        }
        return None;
    }
    if c1 == '.' {
        proof {
            lemma_digits_end_bounds(k@, d1 + 1);
        }
        let d3 = find_digits_end(k, d1 + 1);
        if d3 == d1 + 1 || d3 != n {
            return None;
        }
        let comp = match parse_digits(k, d1 + 1, d3) {
            Some(v) => v,
            None => {
                return None;
            },
        };
        return Some((f, None, Some(comp)));
    }
    None
}

/// The view of the executable entry tuples.
pub open spec fn entries_view(v: Seq<(usize, usize, usize, String)>) -> Seq<EntryV> {
    v.map_values(
        |e: (usize, usize, usize, String)| EntryV {
            field: e.0 as nat,
            rep: e.1 as nat,
            comp: e.2 as nat,
            value: e.3@,
        },
    )
}

pub open spec fn opt_str_view(o: Option<String>) -> Option<Seq<char>> {
    match o {
        Some(s) => Some(s@),
        None => None,
    }
}

fn slot_lookup(entries: &Vec<(usize, usize, usize, String)>, f: usize, r: usize, c: usize) -> (out:
    Option<String>)
    ensures
        match out {
            Some(s) => spec_slot(entries_view(entries@), f as nat, r as nat, c as nat) == Some(s@),
            None => spec_slot(entries_view(entries@), f as nat, r as nat, c as nat) is None,
        },
{
    let ghost es = entries_view(entries@);
    let mut found: Option<usize> = None;
    let mut k: usize = 0;
    while k < entries.len()
        invariant
            es == entries_view(entries@),
            k <= entries@.len(),
            match found {
                Some(fi) => fi < k && spec_slot(es.take(k as int), f as nat, r as nat, c as nat)
                    == Some(entries@[fi as int].3@),
                None => spec_slot(es.take(k as int), f as nat, r as nat, c as nat) is None,
            },
        decreases entries@.len() - k,
    {
        let e = &entries[k];
        proof {
            assert(es.take(k + 1).drop_last() =~= es.take(k as int));
            assert(es.take(k + 1).last() == es[k as int]);
        }
        if e.0 == f && e.1 == r && e.2 == c {
            found = Some(k);
        }
        k += 1;
    }
    proof {
        assert(es.take(entries@.len() as int) =~= es);
    }
    match found {
        Some(fi) => Some(entries[fi].3.clone()),
        None => None,
    }
}

fn has_field_ex(entries: &Vec<(usize, usize, usize, String)>, f: usize) -> (b: bool)
    ensures
        b == spec_has_field(entries_view(entries@), f as nat),
{
    let ghost es = entries_view(entries@);
    let mut b = false;
    let mut k: usize = 0;
    while k < entries.len()
        invariant
            es == entries_view(entries@),
            k <= entries@.len(),
            b == spec_has_field(es.take(k as int), f as nat),
        decreases entries@.len() - k,
    {
        proof {
            assert(es.take(k + 1).drop_last() =~= es.take(k as int));
            assert(es.take(k + 1).last() == es[k as int]);
        }
        if entries[k].0 == f {
            b = true;
        }
        k += 1;
    }
    proof {
        assert(es.take(entries@.len() as int) =~= es);
    }
    b
}

fn has_rep_ex(entries: &Vec<(usize, usize, usize, String)>, f: usize, r: usize) -> (b: bool)
    ensures
        b == spec_has_rep(entries_view(entries@), f as nat, r as nat),
{
    let ghost es = entries_view(entries@);
    let mut b = false;
    let mut k: usize = 0;
    while k < entries.len()
        invariant
            es == entries_view(entries@),
            k <= entries@.len(),
            b == spec_has_rep(es.take(k as int), f as nat, r as nat),
        decreases entries@.len() - k,
    {
        proof {
            assert(es.take(k + 1).drop_last() =~= es.take(k as int));
            assert(es.take(k + 1).last() == es[k as int]);
        }
        if entries[k].0 == f && entries[k].1 == r {
            b = true;
        }
        k += 1;
    }
    proof {
        assert(es.take(entries@.len() as int) =~= es);
    }
    b
}

fn max_field_ex(entries: &Vec<(usize, usize, usize, String)>) -> (m: usize)
    ensures
        m as nat == spec_max_field(entries_view(entries@)),
{
    let ghost es = entries_view(entries@);
    let mut m: usize = 0;
    let mut k: usize = 0;
    while k < entries.len()
        invariant
            es == entries_view(entries@),
            k <= entries@.len(),
            m as nat == spec_max_field(es.take(k as int)),
        decreases entries@.len() - k,
    {
        proof {
            assert(es.take(k + 1).drop_last() =~= es.take(k as int));
            assert(es.take(k + 1).last() == es[k as int]);
        }
        if entries[k].0 > m {
            m = entries[k].0;
        }
        k += 1;
    }
    proof {
        assert(es.take(entries@.len() as int) =~= es);
    }
    m
}

fn max_rep_ex(entries: &Vec<(usize, usize, usize, String)>, f: usize) -> (m: usize)
    ensures
        m as nat == spec_max_rep(entries_view(entries@), f as nat),
{
    let ghost es = entries_view(entries@);
    let mut m: usize = 0;
    let mut k: usize = 0;
    while k < entries.len()
        invariant
            es == entries_view(entries@),
            k <= entries@.len(),
            m as nat == spec_max_rep(es.take(k as int), f as nat),
        decreases entries@.len() - k,
    {
        proof {
            assert(es.take(k + 1).drop_last() =~= es.take(k as int));
            assert(es.take(k + 1).last() == es[k as int]);
        }
        if entries[k].0 == f && entries[k].1 > m {
            m = entries[k].1;
        }
        k += 1;
    }
    proof {
        assert(es.take(entries@.len() as int) =~= es);
    }
    m
}

fn max_comp_ex(entries: &Vec<(usize, usize, usize, String)>, f: usize, r: usize) -> (m: usize)
    ensures
        m as nat == spec_max_comp(entries_view(entries@), f as nat, r as nat),
{
    let ghost es = entries_view(entries@);
    let mut m: usize = 0;
    let mut k: usize = 0;
    while k < entries.len()
        invariant
            es == entries_view(entries@),
            k <= entries@.len(),
            m as nat == spec_max_comp(es.take(k as int), f as nat, r as nat),
        decreases entries@.len() - k,
    {
        proof {
            assert(es.take(k + 1).drop_last() =~= es.take(k as int));
            assert(es.take(k + 1).last() == es[k as int]);
        }
        if entries[k].0 == f && entries[k].1 == r && entries[k].2 > m {
            m = entries[k].2;
        }
        k += 1;
    }
    proof {
        assert(es.take(entries@.len() as int) =~= es);
    }
    m
}

/// Renders one repetition of field `f`.
fn rep_text_ex(h: Hl7EscapeHandler, entries: &Vec<(usize, usize, usize, String)>, f: usize, r:
    usize) -> (out: String)
    ensures
        out@ == spec_rep_text(h, entries_view(entries@), f as nat, r as nat),
{
    let ghost es = entries_view(entries@);
    if !has_rep_ex(entries, f, r) {
        return String::new();
    }
    let mc = max_comp_ex(entries, f, r);
    if mc == 0 {
        match slot_lookup(entries, f, r, 0) {
            Some(s) => s,
            None => String::new(),
        }
    } else {
        let mut comps: Vec<String> = Vec::new();
        let mut c: usize = 0;
        while c < mc
            invariant
                es == entries_view(entries@),
                mc as nat == spec_max_comp(es, f as nat, r as nat),
                c <= mc,
                comps@.len() == c,
                forall|x: int|
                    0 <= x < c ==> (#[trigger] comps@[x])@ == opt_or_empty(
                        spec_slot(es, f as nat, r as nat, (x + 1) as nat),
                    ),
            decreases mc - c,
        {
            let piece = match slot_lookup(entries, f, r, c + 1) {
                Some(s) => s,
                None => String::new(),
            };
            comps.push(piece);
            c += 1;
        }
        proof {
            assert(comps.deep_view() =~= Seq::new(
                mc as nat,
                |x: int| opt_or_empty(spec_slot(es, f as nat, r as nat, (x + 1) as nat)),
            ));
        }
        join_chars(&comps, h.component_separator)
    }
}

/// Renders one whole field slot.
fn field_text_ex(h: Hl7EscapeHandler, entries: &Vec<(usize, usize, usize, String)>, f: usize) -> (
    out: String)
    ensures
        out@ == spec_field_text(h, entries_view(entries@), f as nat),
{
    let ghost es = entries_view(entries@);
    if !has_field_ex(entries, f) {
        return String::new();
    }
    let mr = max_rep_ex(entries, f);
    let mut reps: Vec<String> = Vec::new();
    let mut j: usize = 0;
    while j < mr
        invariant
            es == entries_view(entries@),
            mr as nat == spec_max_rep(es, f as nat),
            j <= mr,
            reps@.len() == j,
            forall|x: int|
                0 <= x < j ==> (#[trigger] reps@[x])@ == spec_rep_text(h, es, f as nat, x as nat),
        decreases mr - j,
    {
        let piece = rep_text_ex(h, entries, f, j);
        reps.push(piece);
        j += 1;
    }
    let last = rep_text_ex(h, entries, f, mr);
    reps.push(last);
    proof {
        assert(reps.deep_view() =~= Seq::new(
            (mr + 1) as nat,
            |x: int| spec_rep_text(h, es, f as nat, x as nat),
        ));
    }
    join_chars(&reps, h.repetition_separator)
}

/// Rebuilds raw segment text from flat mappings, one text line per mapping.
pub struct JsonHl7 {
    pub json_data: Vec<Vec<(String, String)>>,
    pub escape_handler: Hl7EscapeHandler,
}

impl JsonHl7 {
    pub fn new(json_data: Vec<Vec<(String, String)>>) -> (r: Self)
        ensures
            r.json_data == json_data,
            r.escape_handler == spec_default_handler(),
    {
        JsonHl7 { json_data, escape_handler: create_default_escape_handler() }
    }

    /// Decodes one flat mapping back into one raw segment line: parses each
    /// key against the grammar (ignoring others), escapes each value, and
    /// joins the addressed slots back with the configured separators,
    /// filling positional gaps with empty slots.
    pub fn _convert_segment_json_to_hl7(&self, segment_json: &Vec<(String, String)>) -> (r: String)
        ensures
            r@ == spec_decode_pairs(self.escape_handler, pairs_view(segment_json@)),
    {
        let h = self.escape_handler;
        let ghost pv = pairs_view(segment_json@);
        let mut entries: Vec<(usize, usize, usize, String)> = Vec::new();
        let mut name: Option<String> = None;
        let mut i: usize = 0;
        while i < segment_json.len()
            invariant
                h == self.escape_handler,
                pv == pairs_view(segment_json@),
                i <= segment_json@.len(),
                entries_view(entries@) == spec_entries(h, pv.take(i as int)),
                opt_str_view(name) == spec_name_of(pv.take(i as int)),
            decreases segment_json@.len() - i,
        {
            let p = &segment_json[i];
            proof {
                assert(pv[i as int] == (segment_json@[i as int].0@, segment_json@[i as int].1@));
                assert(pv.take(i + 1).drop_last() =~= pv.take(i as int));
                assert(pv.take(i + 1).last() == pv[i as int]);
            }
            if str_eq(p.0.as_str(), "segment_name") {
                name = Some(p.1.clone());
            } else {
                match parse_flat_key(p.0.as_str()) {
                    Some((f, rep, comp)) => {
                        let rv = match rep {
                            Some(x) => x,
                            None => 0,
                        };
                        let cv = match comp {
                            Some(x) => x,
                            None => 0,
                        };
                        let ev = h.escape(p.1.as_str());
                        let ghost eprev = entries_view(entries@);
                        entries.push((f, rv, cv, ev));
                        proof {
                            assert(entries_view(entries@) =~= eprev + spec_entry_of(
                                h,
                                pv[i as int],
                            ));
                        }
                    },
                    None => {
                        proof {
                            assert(spec_entry_of(h, pv[i as int]) =~= Seq::<EntryV>::empty());
                            assert(entries_view(entries@) =~= spec_entries(h, pv.take(i + 1)));
                        }
                    },
                }
            }
            i += 1;
        }
        proof {
            assert(pv.take(segment_json@.len() as int) =~= pv);
        }
        let ghost es = entries_view(entries@);
        let max_f = max_field_ex(&entries);
        let mut fields_vec: Vec<String> = Vec::new();
        let name_str = match name {
            Some(n) => n,
            None => String::new(),
        };
        fields_vec.push(name_str);
        let mut x: usize = 0;
        while x < max_f
            invariant
                h == self.escape_handler,
                es == entries_view(entries@),
                max_f as nat == spec_max_field(es),
                x <= max_f,
                fields_vec@.len() == x + 1,
                fields_vec@[0int]@ == opt_or_empty(spec_name_of(pv)),
                forall|y: int|
                    1 <= y <= x ==> (#[trigger] fields_vec@[y])@ == spec_field_text(
                        h,
                        es,
                        y as nat,
                    ),
            decreases max_f - x,
        {
            let ft = field_text_ex(h, &entries, x + 1);
            fields_vec.push(ft);
            x += 1;
        }
        proof {
            assert(fields_vec.deep_view() =~= seq![opt_or_empty(spec_name_of(pv))] + Seq::new(
                spec_max_field(es),
                |f: int| spec_field_text(h, es, (f + 1) as nat),
            ));
        }
        join_chars(&fields_vec, h.field_separator)
    }

    /// Decodes every mapping and joins the resulting segment lines with
    /// newlines.
    pub fn _convert_json_to_hl7(&self) -> (r: String)
        ensures
            r@ == spec_decode_message(self.escape_handler, maps_view(self.json_data@)),
    {
        let mut segs: Vec<String> = Vec::new();
        let mut i: usize = 0;
        while i < self.json_data.len()
            invariant
                i <= self.json_data@.len(),
                segs@.len() == i,
                forall|k: int|
                    0 <= k < i ==> (#[trigger] segs@[k])@ == spec_decode_pairs(
                        self.escape_handler,
                        maps_view(self.json_data@)[k],
                    ),
            decreases self.json_data@.len() - i,
        {
            let seg = self._convert_segment_json_to_hl7(&self.json_data[i]);
            segs.push(seg);
            i += 1;
        }
        proof {
            assert(segs.deep_view() =~= maps_view(self.json_data@).map_values(
                |ps: Seq<(Seq<char>, Seq<char>)>| spec_decode_pairs(self.escape_handler, ps),
            ));
        }
        join_chars(&segs, '\n')
    }

    /// The decoded message text.
    pub fn hl7_string(&self) -> (r: String)
        ensures
            r@ == spec_decode_message(self.escape_handler, maps_view(self.json_data@)),
    {
        self._convert_json_to_hl7()
    }
}

} // verus!
