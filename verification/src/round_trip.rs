//! The round-trip law of the codec: parsing raw text with escape handling,
//! encoding the segment to flat pairs, decoding those pairs back to a raw
//! line, and re-parsing yields a segment with the same flat-key encoding.
//!
//! The law is built in two halves. One shows that the flat-key decoder's
//! rebuild of exactly the encoder's pairs is a rendering that re-escapes
//! every leaf and component slot and re-joins them on the separators
//! ([`lemma_decode_encode`]). The other shows that re-parsing such a
//! rendering preserves the flat-key encoding, per field and per segment
//! ([`lemma_field_round_trip`], [`lemma_segment_round_trip`]). Their
//! composition is [`lemma_segment_decode_round_trip`].

use vstd::prelude::*;

use crate::escape::{lemma_unescape_escape_prefix, lemma_unescape_from_shift, spec_escape,
    spec_unescape, spec_unescape_from};
use crate::escape::{esc_one, is_seq_char, spec_default_handler};
use crate::segments::{guard_text, spec_encode_field, spec_parse_field, spec_parse_rep,
    spec_piece_value, FieldV, RepV, SegV};
use crate::text::{lemma_join_contains, lemma_join_free, lemma_join_split, lemma_split_join,
    lemma_split_pieces_free, spec_join, spec_split};
use crate::text::{lemma_find_from_bounds, lemma_spec_split_from_nonempty};
use crate::json_hl7::{dec_value, digits_end, is_digit, spec_parse_flat_key, EntryV, FlatKeyV};
use crate::text::{digit_char, spec_decimal};

verus! {

/// Whether `s` holds none of the default separator characters. The escaped
/// form of any text is delimiter-free, which is what lets the rebuilt text
/// re-split exactly as intended.
pub open spec fn delims_free(s: Seq<char>) -> bool {
    forall|i: int|
        0 <= i < s.len() ==> s[i] != '|' && s[i] != '^' && s[i] != '~' && s[i] != '\n'
}

proof fn lemma_delims_free_not_contains(s: Seq<char>)
    requires
        delims_free(s),
    ensures
        !s.contains('|'),
        !s.contains('^'),
        !s.contains('~'),
        !s.contains('\n'),
{
    if s.contains('|') {
        let w = choose|w: int| 0 <= w < s.len() && s[w] == '|';
    }
    if s.contains('^') {
        let w = choose|w: int| 0 <= w < s.len() && s[w] == '^';
    }
    if s.contains('~') {
        let w = choose|w: int| 0 <= w < s.len() && s[w] == '~';
    }
    if s.contains('\n') {
        let w = choose|w: int| 0 <= w < s.len() && s[w] == '\n';
    }
}

/// The escaped form of any text holds no raw separator.
proof fn lemma_escape_delims_free(v: Seq<char>)
    ensures
        delims_free(spec_escape(spec_default_handler(), v)),
    decreases v.len(),
{
    let h = spec_default_handler();
    if v.len() > 0 {
        lemma_escape_delims_free(v.drop_first());
        let u = esc_one(h, v[0]);
        assert(delims_free(u));
        let rest = spec_escape(h, v.drop_first());
        assert forall|i: int| 0 <= i < (u + rest).len() implies (u + rest)[i] != '|' && (u
            + rest)[i] != '^' && (u + rest)[i] != '~' && (u + rest)[i] != '\n' by {
            if i < u.len() {
                assert((u + rest)[i] == u[i]);
            } else {
                assert((u + rest)[i] == rest[i - u.len()]);
            }
        }
    }
}

/// The domain-level text of one repetition: its components joined, or its
/// leaf value.
pub open spec fn rep_plain_text(rep: RepV) -> Seq<char> {
    match rep.components {
        Some(cs) => spec_join(cs, '^'),
        None => rep.value,
    }
}

/// The raw text the flat-key decoder rebuilds for one repetition of an
/// encoded field: every component slot escaped and joined on the component
/// separator, or the escaped whole value.
pub open spec fn spec_render_rep(rep: RepV) -> Seq<char> {
    let h = spec_default_handler();
    match rep.components {
        Some(cs) => spec_join(cs.map_values(|p: Seq<char>| spec_escape(h, p)), '^'),
        None => spec_escape(h, rep.value),
    }
}

/// The raw text the flat-key decoder rebuilds for one encoded field: its
/// repetition slots joined on the repetition separator, or its component
/// slots joined on the component separator, or the escaped leaf value.
pub open spec fn spec_render_field(f: FieldV) -> Seq<char> {
    let h = spec_default_handler();
    match f.repetitions {
        Some(rs) => spec_join(rs.map_values(|r: RepV| spec_render_rep(r)), '~'),
        None => match f.components {
            Some(cs) => spec_join(cs.map_values(|p: Seq<char>| spec_escape(h, p)), '^'),
            None => spec_escape(h, f.value),
        },
    }
}

/// Scanning one plain (non-escape) character emits it and goes on.
proof fn lemma_unescape_plain_prefix(c: char, t: Seq<char>)
    requires
        c != '\\',
    ensures
        spec_unescape_from(spec_default_handler(), seq![c] + t, 0) == seq![c]
            + spec_unescape_from(spec_default_handler(), t, 0),
{
    let h = spec_default_handler();
    let s = seq![c] + t;
    assert(s[0] == c);
    lemma_unescape_from_shift(h, seq![c], t, 0);
}

/// Scanning a join of escaped components emits the plain join and goes on.
proof fn lemma_unescape_join_escapes(cs: Seq<Seq<char>>, t: Seq<char>)
    requires
        cs.len() >= 1,
    ensures
        spec_unescape_from(
            spec_default_handler(),
            spec_join(
                cs.map_values(|p: Seq<char>| spec_escape(spec_default_handler(), p)),
                '^',
            ) + t,
            0,
        ) == spec_join(cs, '^') + spec_unescape_from(spec_default_handler(), t, 0),
    decreases cs.len(),
{
    let h = spec_default_handler();
    let es = cs.map_values(|p: Seq<char>| spec_escape(h, p));
    assert(!is_seq_char('\\'));
    if cs.len() == 1 {
        assert(spec_join(es, '^') == es[0]);
        assert(es[0] == spec_escape(h, cs[0]));
        lemma_unescape_escape_prefix(h, cs[0], t);
        assert(spec_join(cs, '^') == cs[0]);
    } else {
        assert(spec_join(es, '^') == es[0] + seq!['^'] + spec_join(es.drop_first(), '^'));
        assert(es.drop_first() =~= cs.drop_first().map_values(
            |p: Seq<char>| spec_escape(h, p),
        ));
        lemma_unescape_join_escapes(cs.drop_first(), t);
        let tail0 = spec_join(es.drop_first(), '^') + t;
        lemma_unescape_plain_prefix('^', tail0);
        lemma_unescape_escape_prefix(h, cs[0], seq!['^'] + tail0);
        assert(spec_escape(h, cs[0]) + (seq!['^'] + tail0) =~= spec_join(es, '^') + t);
        assert(spec_join(cs, '^') == cs[0] + seq!['^'] + spec_join(cs.drop_first(), '^'));
        assert(cs[0] + (seq!['^'] + (spec_join(cs.drop_first(), '^') + spec_unescape_from(
            h,
            t,
            0,
        ))) =~= spec_join(cs, '^') + spec_unescape_from(h, t, 0));
    }
}

/// Whether the components of a repetition, when present, are at least one.
pub open spec fn rep_has_components_shape(rep: RepV) -> bool {
    rep.components matches Some(cs) ==> cs.len() >= 1
}

/// Scanning the rebuilt text of one repetition emits its plain text.
proof fn lemma_unescape_render_rep(rep: RepV, t: Seq<char>)
    requires
        rep_has_components_shape(rep),
    ensures
        spec_unescape_from(spec_default_handler(), spec_render_rep(rep) + t, 0) == rep_plain_text(
            rep,
        ) + spec_unescape_from(spec_default_handler(), t, 0),
{
    let h = spec_default_handler();
    assert(!is_seq_char('\\'));
    match rep.components {
        Some(cs) => {
            lemma_unescape_join_escapes(cs, t);
        },
        None => {
            lemma_unescape_escape_prefix(h, rep.value, t);
        },
    }
}

/// Scanning the joined rebuilt repetitions emits their joined plain texts.
proof fn lemma_unescape_render_reps(rs: Seq<RepV>, t: Seq<char>)
    requires
        rs.len() >= 1,
        forall|i: int| 0 <= i < rs.len() ==> rep_has_components_shape(#[trigger] rs[i]),
    ensures
        spec_unescape_from(
            spec_default_handler(),
            spec_join(rs.map_values(|r: RepV| spec_render_rep(r)), '~') + t,
            0,
        ) == spec_join(rs.map_values(|r: RepV| rep_plain_text(r)), '~') + spec_unescape_from(
            spec_default_handler(),
            t,
            0,
        ),
    decreases rs.len(),
{
    let h = spec_default_handler();
    let rends = rs.map_values(|r: RepV| spec_render_rep(r));
    let plains = rs.map_values(|r: RepV| rep_plain_text(r));
    if rs.len() == 1 {
        assert(spec_join(rends, '~') == rends[0]);
        assert(spec_join(plains, '~') == plains[0]);
        lemma_unescape_render_rep(rs[0], t);
    } else {
        assert(spec_join(rends, '~') == rends[0] + seq!['~'] + spec_join(rends.drop_first(), '~'));
        assert(rends.drop_first() =~= rs.drop_first().map_values(|r: RepV| spec_render_rep(r)));
        assert(plains.drop_first() =~= rs.drop_first().map_values(|r: RepV| rep_plain_text(r)));
        assert(forall|i: int|
            0 <= i < rs.drop_first().len() ==> rep_has_components_shape(
                #[trigger] rs.drop_first()[i],
            ));
        lemma_unescape_render_reps(rs.drop_first(), t);
        let tail0 = spec_join(rends.drop_first(), '~') + t;
        lemma_unescape_plain_prefix('~', tail0);
        lemma_unescape_render_rep(rs[0], seq!['~'] + tail0);
        assert(spec_render_rep(rs[0]) + (seq!['~'] + tail0) =~= spec_join(rends, '~') + t);
        assert(spec_join(plains, '~') == plains[0] + seq!['~'] + spec_join(
            plains.drop_first(),
            '~',
        ));
        assert(plains[0] + (seq!['~'] + (spec_join(plains.drop_first(), '~')
            + spec_unescape_from(h, t, 0))) =~= spec_join(plains, '~') + spec_unescape_from(
            h,
            t,
            0,
        ));
    }
}

/// The rebuilt text of one repetition holds no raw repetition separator.
proof fn lemma_render_rep_tilde_free(rep: RepV)
    ensures
        !spec_render_rep(rep).contains('~'),
{
    let h = spec_default_handler();
    match rep.components {
        Some(cs) => {
            let es = cs.map_values(|p: Seq<char>| spec_escape(h, p));
            assert forall|i: int| 0 <= i < es.len() implies !(#[trigger] es[i]).contains('~') by {
                lemma_escape_delims_free(cs[i]);
                lemma_delims_free_not_contains(es[i]);
            }
            lemma_join_free(es, '^', '~');
        },
        None => {
            lemma_escape_delims_free(rep.value);
            lemma_delims_free_not_contains(spec_render_rep(rep));
        },
    }
}

/// Re-parsing the rebuilt text of one parser-produced repetition restores
/// it exactly.
proof fn lemma_rep_round_trip(rep: RepV)
    requires
        rep.components matches Some(cs) ==> cs.len() >= 2 && rep.value == spec_join(cs, '^')
            && spec_join(cs, '^') != guard_text() && (forall|j: int|
            0 <= j < cs.len() ==> !(#[trigger] cs[j]).contains('^')),
        rep.components is None ==> rep.value == guard_text() || !rep.value.contains('^'),
    ensures
        spec_parse_rep(Some(spec_default_handler()), spec_render_rep(rep)) == rep,
{
    let h = spec_default_handler();
    let r = spec_render_rep(rep);
    assert(!is_seq_char('\\'));
    match rep.components {
        Some(cs) => {
            lemma_unescape_join_escapes(cs, Seq::empty());
            assert(r + Seq::<char>::empty() =~= r);
            assert(spec_unescape_from(h, Seq::<char>::empty(), 0) =~= Seq::<char>::empty());
            let v = spec_join(cs, '^');
            assert(spec_unescape(h, r) =~= v);
            lemma_join_contains(cs, '^');
            lemma_split_join(cs, '^');
            assert(spec_parse_rep(Some(h), r) =~~= rep);
        },
        None => {
            lemma_unescape_escape_prefix(h, rep.value, Seq::empty());
            assert(r + Seq::<char>::empty() =~= r);
            assert(spec_unescape_from(h, Seq::<char>::empty(), 0) =~= Seq::<char>::empty());
            assert(spec_unescape(h, r) =~= rep.value);
            assert(spec_piece_value(Some(h), r) == rep.value);
            if rep.value == guard_text() {
                assert(spec_parse_rep(Some(h), r).value == rep.value);
                assert(spec_parse_rep(Some(h), r).components is None);
            } else {
                assert(spec_parse_rep(Some(h), r).value == rep.value);
                assert(spec_parse_rep(Some(h), r).components is None);
            }
            assert(spec_parse_rep(Some(h), r) =~~= rep);
        },
    }
}

/// The shape the parser gives every repetition it produces from a raw
/// slice: components exist exactly when the domain value holds the
/// component separator, are then its split, and the whole is never the
/// guard text.
proof fn lemma_parse_rep_shape(s: Seq<char>)
    ensures
        ({
            let h = spec_default_handler();
            let rep = spec_parse_rep(Some(h), s);
            &&& rep_plain_text(rep) == spec_piece_value(Some(h), s)
            &&& (rep.components matches Some(cs) ==> cs.len() >= 2 && rep.value == spec_join(
                cs,
                '^',
            ) && spec_join(cs, '^') != guard_text() && (forall|j: int|
                0 <= j < cs.len() ==> !(#[trigger] cs[j]).contains('^')))
            &&& (rep.components is None ==> rep.value == guard_text() || !rep.value.contains(
                '^',
            ))
        }),
{
    let h = spec_default_handler();
    let v = spec_piece_value(Some(h), s);
    let rep = spec_parse_rep(Some(h), s);
    if v != guard_text() && v.contains('^') {
        let cs = spec_split(v, '^');
        lemma_join_split(v, '^');
        lemma_split_pieces_free(v, '^');
        lemma_spec_split_from_nonempty(v, '^', 0);
        let w = choose|w: int| 0 <= w < v.len() && v[w] == '^';
        lemma_find_from_bounds(v, '^', 0);
        assert(cs.len() >= 2) by {
            let k = crate::text::find_from(v, '^', 0);
            assert(k < v.len());
            lemma_spec_split_from_nonempty(v, '^', k + 1);
        }
    }
}

/// Re-parsing the rebuilt text of a parsed field yields a field with the
/// same flat-key encoding.
///
/// This is the central inverse property of the codec: for a field parsed
/// from raw text `s` with escape handling, re-escaping its leaf and
/// component values and re-joining them on the component and repetition
/// separators (exactly the text the flat-key decoder rebuilds from this
/// field's encoded pairs), then parsing that text again, changes no encoded
/// key or value. The one excluded corner is the guard heuristic the format
/// carries: a rebuilt text whose unescaped value collides with the default
/// encoding-characters text even though the original field was not the
/// guarded leaf.
pub proof fn lemma_field_round_trip(s: Seq<char>, idx: nat)
    requires
        ({
            let h = spec_default_handler();
            let fv = spec_parse_field(Some(h), s);
            spec_unescape(h, spec_render_field(fv)) == guard_text() ==> spec_unescape(h, s)
                == guard_text()
        }),
    ensures
        ({
            let h = spec_default_handler();
            let fv = spec_parse_field(Some(h), s);
            spec_encode_field(idx, spec_parse_field(Some(h), spec_render_field(fv)))
                == spec_encode_field(idx, fv)
        }),
{
    let h = spec_default_handler();
    let v = spec_unescape(h, s);
    let fv = spec_parse_field(Some(h), s);
    let r = spec_render_field(fv);
    assert(!is_seq_char('\\'));
    assert(spec_piece_value(Some(h), s) == v);
    if v == guard_text() {
        assert(fv == FieldV { value: v, components: None, repetitions: None });
        assert(r == spec_escape(h, v));
        lemma_unescape_escape_prefix(h, v, Seq::empty());
        assert(r + Seq::<char>::empty() =~= r);
        assert(spec_unescape_from(h, Seq::<char>::empty(), 0) =~= Seq::<char>::empty());
        assert(spec_unescape(h, r) =~= v);
        assert(spec_parse_field(Some(h), r) =~~= fv);
    } else if s.contains('~') {
        let pieces = spec_split(s, '~');
        let rs = pieces.map_values(|p: Seq<char>| spec_parse_rep(Some(h), p));
        assert(fv.repetitions == Some(rs));
        assert(r == spec_join(rs.map_values(|x: RepV| spec_render_rep(x)), '~'));
        lemma_spec_split_from_nonempty(s, '~', 0);
        assert(rs.len() >= 2) by {
            let w = choose|w: int| 0 <= w < s.len() && s[w] == '~';
            lemma_find_from_bounds(s, '~', 0);
            let k = crate::text::find_from(s, '~', 0);
            assert(k < s.len());
            lemma_spec_split_from_nonempty(s, '~', k + 1);
        }
        assert(forall|i: int|
            0 <= i < rs.len() ==> #[trigger] rs[i] == spec_parse_rep(Some(h), pieces[i]));
        assert forall|i: int| 0 <= i < rs.len() implies rep_has_components_shape(
            #[trigger] rs[i],
        ) by {
            lemma_parse_rep_shape(pieces[i]);
        }
        // the rebuilt text splits back into the rebuilt repetitions
        let rends = rs.map_values(|x: RepV| spec_render_rep(x));
        assert forall|i: int| 0 <= i < rends.len() implies !(#[trigger] rends[i]).contains(
            '~',
        ) by {
            lemma_render_rep_tilde_free(rs[i]);
        }
        lemma_split_join(rends, '~');
        lemma_join_contains(rends, '~');
        // its unescaped value is not the guard, by the excluded corner
        lemma_unescape_render_reps(rs, Seq::empty());
        assert(r + Seq::<char>::empty() =~= r);
        assert(spec_unescape_from(h, Seq::<char>::empty(), 0) =~= Seq::<char>::empty());
        assert(spec_unescape(h, r) =~= spec_join(
            rs.map_values(|x: RepV| rep_plain_text(x)),
            '~',
        ));
        assert(spec_unescape(h, r) != guard_text());
        // each repetition re-parses to itself
        let fv2 = spec_parse_field(Some(h), r);
        assert(fv2.repetitions == Some(
            spec_split(r, '~').map_values(|p: Seq<char>| spec_parse_rep(Some(h), p)),
        ));
        let rs2 = spec_split(r, '~').map_values(|p: Seq<char>| spec_parse_rep(Some(h), p));
        assert forall|i: int| 0 <= i < rs2.len() implies #[trigger] rs2[i] == rs[i] by {
            assert(spec_split(r, '~')[i] == spec_render_rep(rs[i]));
            lemma_parse_rep_shape(pieces[i]);
            lemma_rep_round_trip(rs[i]);
        }
        assert(rs2 =~= rs);
        assert(spec_encode_field(idx, fv2) == spec_encode_field(idx, fv));
    } else if v.contains('^') {
        let cs = spec_split(v, '^');
        assert(fv == FieldV { value: v, components: Some(cs), repetitions: None });
        assert(r == spec_join(cs.map_values(|p: Seq<char>| spec_escape(h, p)), '^'));
        lemma_parse_rep_shape(s);
        lemma_unescape_join_escapes(cs, Seq::empty());
        assert(r + Seq::<char>::empty() =~= r);
        assert(spec_unescape_from(h, Seq::<char>::empty(), 0) =~= Seq::<char>::empty());
        lemma_join_split(v, '^');
        assert(spec_unescape(h, r) =~= v);
        // no raw repetition separator in the rebuilt text
        let es = cs.map_values(|p: Seq<char>| spec_escape(h, p));
        assert forall|i: int| 0 <= i < es.len() implies !(#[trigger] es[i]).contains('~') by {
            lemma_escape_delims_free(cs[i]);
            lemma_delims_free_not_contains(es[i]);
        }
        lemma_join_free(es, '^', '~');
        lemma_split_pieces_free(v, '^');
        lemma_split_join(cs, '^');
        assert(spec_parse_field(Some(h), r) =~~= fv);
    } else {
        assert(fv == FieldV { value: v, components: None, repetitions: None });
        assert(r == spec_escape(h, v));
        lemma_unescape_escape_prefix(h, v, Seq::empty());
        assert(r + Seq::<char>::empty() =~= r);
        assert(spec_unescape_from(h, Seq::<char>::empty(), 0) =~= Seq::<char>::empty());
        assert(spec_unescape(h, r) =~= v);
        lemma_escape_delims_free(v);
        lemma_delims_free_not_contains(r);
        assert(spec_parse_field(Some(h), r) =~~= fv);
    }
}

/// Whether no field of the line falls into the guard collision: a rebuilt
/// field text whose unescaped value equals the default encoding-characters
/// text even though the original field's value did not. The format's guard
/// heuristic swallows such a field on re-parsing; everywhere else the round
/// trip is exact.
pub open spec fn line_round_trip_safe(line: Seq<char>) -> bool {
    let h = spec_default_handler();
    let parts = spec_split(line, '|');
    forall|i: int|
        1 <= i < parts.len() ==> (spec_unescape(
            h,
            spec_render_field(spec_parse_field(Some(h), #[trigger] parts[i])),
        ) == guard_text() ==> spec_unescape(h, parts[i]) == guard_text())
}

/// The raw line the flat-key decoder rebuilds for one encoded segment: the
/// segment name, then the rebuilt text of every field slot, joined on the
/// field separator.
pub open spec fn spec_render_segment(seg: SegV) -> Seq<char> {
    spec_join(seq![seg.name] + seg.fields.map_values(|f: FieldV| spec_render_field(f)), '|')
}

proof fn lemma_render_rep_pipe_free(rep: RepV)
    ensures
        !spec_render_rep(rep).contains('|'),
        !spec_render_rep(rep).contains('\n'),
{
    let h = spec_default_handler();
    match rep.components {
        Some(cs) => {
            let es = cs.map_values(|p: Seq<char>| spec_escape(h, p));
            assert forall|i: int| 0 <= i < es.len() implies !(#[trigger] es[i]).contains('|')
                && !(#[trigger] es[i]).contains('\n') by {
                lemma_escape_delims_free(cs[i]);
                lemma_delims_free_not_contains(es[i]);
            }
            lemma_join_free(es, '^', '|');
            lemma_join_free(es, '^', '\n');
        },
        None => {
            lemma_escape_delims_free(rep.value);
            lemma_delims_free_not_contains(spec_render_rep(rep));
        },
    }
}

proof fn lemma_render_field_pipe_free(f: FieldV)
    ensures
        !spec_render_field(f).contains('|'),
        !spec_render_field(f).contains('\n'),
{
    let h = spec_default_handler();
    match f.repetitions {
        Some(rs) => {
            let rends = rs.map_values(|r: RepV| spec_render_rep(r));
            assert forall|i: int| 0 <= i < rends.len() implies !(#[trigger] rends[i]).contains(
                '|',
            ) && !(#[trigger] rends[i]).contains('\n') by {
                lemma_render_rep_pipe_free(rs[i]);
            }
            lemma_join_free(rends, '~', '|');
            lemma_join_free(rends, '~', '\n');
        },
        None => {
            match f.components {
                Some(cs) => {
                    let es = cs.map_values(|p: Seq<char>| spec_escape(h, p));
                    assert forall|i: int| 0 <= i < es.len() implies !(#[trigger] es[i]).contains(
                        '|',
                    ) && !(#[trigger] es[i]).contains('\n') by {
                        lemma_escape_delims_free(cs[i]);
                        lemma_delims_free_not_contains(es[i]);
                    }
                    lemma_join_free(es, '^', '|');
                    lemma_join_free(es, '^', '\n');
                },
                None => {
                    lemma_escape_delims_free(f.value);
                    lemma_delims_free_not_contains(spec_render_field(f));
                },
            }
        },
    }
}

/// Fields that encode pairwise alike encode alike as a whole.
proof fn lemma_encode_fields_congruence(a: Seq<FieldV>, b: Seq<FieldV>)
    requires
        a.len() == b.len(),
        forall|i: int|
            0 <= i < a.len() ==> spec_encode_field((i + 1) as nat, #[trigger] a[i])
                == spec_encode_field((i + 1) as nat, b[i]),
    ensures
        crate::segments::spec_encode_fields(a) == crate::segments::spec_encode_fields(b),
    decreases a.len(),
{
    if a.len() > 0 {
        assert(forall|i: int|
            0 <= i < a.drop_last().len() ==> #[trigger] a.drop_last()[i] == a[i]);
        assert(forall|i: int|
            0 <= i < b.drop_last().len() ==> #[trigger] b.drop_last()[i] == b[i]);
        lemma_encode_fields_congruence(a.drop_last(), b.drop_last());
        assert(a.last() == a[a.len() - 1]);
        assert(b.last() == b[b.len() - 1]);
    }
}

/// The segment-level round trip: parsing a raw segment line with escape
/// handling, rebuilding it the way the flat-key decoder does from its
/// encoded pairs, and re-parsing yields a segment with the same flat-key
/// encoding. The hypothesis excludes, per field, the guard collision
/// described at [`lemma_field_round_trip`].
pub proof fn lemma_segment_round_trip(line: Seq<char>)
    requires
        line_round_trip_safe(line),
    ensures
        ({
            let h = spec_default_handler();
            let seg = crate::segments::spec_parse_segment(Some(h), line);
            crate::segments::spec_encode_segment(
                crate::segments::spec_parse_segment(Some(h), spec_render_segment(seg)),
            ) == crate::segments::spec_encode_segment(seg)
        }),
{
    let h = spec_default_handler();
    let parts = spec_split(line, '|');
    let seg = crate::segments::spec_parse_segment(Some(h), line);
    lemma_spec_split_from_nonempty(line, '|', 0);
    assert(seg.name == parts[0]);
    assert(seg.fields == parts.drop_first().map_values(
        |p: Seq<char>| spec_parse_field(Some(h), p),
    ));
    let renders = seg.fields.map_values(|f: FieldV| spec_render_field(f));
    let pieces = seq![seg.name] + renders;
    let rl = spec_render_segment(seg);
    assert(rl == spec_join(pieces, '|'));
    lemma_split_pieces_free(line, '|');
    assert forall|i: int| 0 <= i < pieces.len() implies !(#[trigger] pieces[i]).contains('|') by {
        if i == 0 {
            assert(pieces[0] == parts[0]);
        } else {
            assert(pieces[i] == renders[i - 1]);
            lemma_render_field_pipe_free(seg.fields[i - 1]);
        }
    }
    lemma_split_join(pieces, '|');
    let seg2 = crate::segments::spec_parse_segment(Some(h), rl);
    assert(spec_split(rl, '|') == pieces);
    assert(seg2.name == seg.name);
    assert(pieces.drop_first() =~= renders);
    assert(seg2.fields == renders.map_values(|p: Seq<char>| spec_parse_field(Some(h), p)));
    assert(seg2.fields.len() == seg.fields.len());
    assert forall|i: int| 0 <= i < seg2.fields.len() implies spec_encode_field(
        (i + 1) as nat,
        #[trigger] seg2.fields[i],
    ) == spec_encode_field((i + 1) as nat, seg.fields[i]) by {
        assert(seg.fields[i] == spec_parse_field(Some(h), parts.drop_first()[i]));
        assert(parts.drop_first()[i] == parts[i + 1]);
        assert(renders[i] == spec_render_field(seg.fields[i]));
        lemma_field_round_trip(parts[i + 1], (i + 1) as nat);
        assert(seg2.fields[i] == spec_parse_field(
            Some(h),
            spec_render_field(spec_parse_field(Some(h), parts[i + 1])),
        ));
    }
    lemma_encode_fields_congruence(seg2.fields, seg.fields);
    assert(crate::segments::spec_encode_segment(seg2) =~= crate::segments::spec_encode_segment(
        seg,
    ));
}

/// Every character of a decimal rendering is a digit, and there is at least
/// one.
proof fn lemma_decimal_shape(n: nat)
    ensures
        spec_decimal(n).len() >= 1,
        forall|i: int| 0 <= i < spec_decimal(n).len() ==> is_digit(#[trigger] spec_decimal(n)[i]),
    decreases n,
{
    assert(is_digit(digit_char(n % 10))) by {
        assert(digit_char(n % 10) == ((48 + n % 10) as u8) as char);
    }
    if n < 10 {
        assert(spec_decimal(n) == seq![digit_char(n)]);
        assert(n % 10 == n);
    } else {
        lemma_decimal_shape(n / 10);
        assert(forall|i: int|
            0 <= i < spec_decimal(n / 10).len() ==> #[trigger] spec_decimal(n)[i]
                == spec_decimal(n / 10)[i]);
        assert(spec_decimal(n)[spec_decimal(n).len() - 1] == digit_char(n % 10));
    }
}

/// The decimal rendering of `n` reads back as `n`.
proof fn lemma_dec_value_decimal(n: nat)
    ensures
        dec_value(spec_decimal(n)) == n,
    decreases n,
{
    if n < 10 {
        assert(spec_decimal(n) == seq![digit_char(n)]);
        assert(seq![digit_char(n)].drop_last() =~= Seq::<char>::empty());
        assert(dec_value(Seq::<char>::empty()) == 0);
        assert(digit_char(n) as int == 48 + n);
    } else {
        lemma_dec_value_decimal(n / 10);
        assert(spec_decimal(n).drop_last() =~= spec_decimal(n / 10));
        assert(spec_decimal(n).last() == digit_char(n % 10));
        assert(digit_char(n % 10) as int == 48 + n % 10);
    }
}

/// The digit run from `j` ends exactly at `e` when everything before `e` is
/// a digit and `e` is the end or a non-digit.
proof fn lemma_digits_end_exact(s: Seq<char>, j: int, e: int)
    requires
        0 <= j <= e <= s.len(),
        forall|k: int| j <= k < e ==> is_digit(s[k]),
        e == s.len() || !is_digit(s[e]),
    ensures
        digits_end(s, j) == e,
    decreases e - j,
{
    if j < e {
        lemma_digits_end_exact(s, j + 1, e);
    }
}

/// A whole-field key parses back to its field index.
proof fn lemma_parse_field_key(i: nat)
    requires
        i <= usize::MAX,
    ensures
        spec_parse_flat_key(crate::segments::spec_field_key(i)) == Some(
            FlatKeyV { field: i, rep: None, comp: None },
        ),
{
    let k = crate::segments::spec_field_key(i);
    lemma_decimal_shape(i);
    lemma_digits_end_exact(k, 0, k.len() as int);
    assert(k.subrange(0, k.len() as int) =~= k);
    lemma_dec_value_decimal(i);
}

/// A whole-repetition key parses back to its field and repetition indices.
proof fn lemma_parse_rep_key(i: nat, r: nat)
    requires
        i <= usize::MAX,
        r <= usize::MAX,
    ensures
        spec_parse_flat_key(crate::segments::spec_rep_key(i, r)) == Some(
            FlatKeyV { field: i, rep: Some(r), comp: None },
        ),
{
    let di = spec_decimal(i);
    let dr = spec_decimal(r);
    let k = crate::segments::spec_rep_key(i, r);
    lemma_decimal_shape(i);
    lemma_decimal_shape(r);
    lemma_dec_value_decimal(i);
    lemma_dec_value_decimal(r);
    assert(k.len() == di.len() + dr.len() + 2);
    assert(forall|x: int| 0 <= x < di.len() ==> #[trigger] k[x] == di[x]);
    assert(k[di.len() as int] == '[');
    assert(forall|x: int|
        0 <= x < dr.len() ==> #[trigger] k[di.len() + 1 + x] == dr[x]);
    assert(k[di.len() + 1 + dr.len() as int] == ']');
    assert(!is_digit('['));
    assert(!is_digit(']'));
    lemma_digits_end_exact(k, 0, di.len() as int);
    assert(k.subrange(0, di.len() as int) =~= di);
    lemma_digits_end_exact(k, di.len() as int + 1, di.len() + 1 + dr.len() as int);
    assert(k.subrange(di.len() as int + 1, di.len() + 1 + dr.len() as int) =~= dr);
}

/// A component key parses back to its full address.
proof fn lemma_parse_comp_key(i: nat, rep: Option<nat>, c: nat)
    requires
        i <= usize::MAX,
        c <= usize::MAX,
        rep matches Some(r) ==> r <= usize::MAX,
    ensures
        spec_parse_flat_key(crate::segments::spec_comp_key(i, rep, c)) == Some(
            FlatKeyV { field: i, rep, comp: Some(c) },
        ),
{
    let di = spec_decimal(i);
    let dc = spec_decimal(c);
    let k = crate::segments::spec_comp_key(i, rep, c);
    lemma_decimal_shape(i);
    lemma_decimal_shape(c);
    lemma_dec_value_decimal(i);
    lemma_dec_value_decimal(c);
    assert(!is_digit('['));
    assert(!is_digit(']'));
    assert(!is_digit('.'));
    match rep {
        None => {
            assert(k.len() == di.len() + 1 + dc.len());
            assert(forall|x: int| 0 <= x < di.len() ==> #[trigger] k[x] == di[x]);
            assert(k[di.len() as int] == '.');
            assert(forall|x: int|
                0 <= x < dc.len() ==> #[trigger] k[di.len() + 1 + x] == dc[x]);
            lemma_digits_end_exact(k, 0, di.len() as int);
            assert(k.subrange(0, di.len() as int) =~= di);
            lemma_digits_end_exact(k, di.len() as int + 1, k.len() as int);
            assert(k.subrange(di.len() as int + 1, k.len() as int) =~= dc);
        },
        Some(r) => {
            let dr = spec_decimal(r);
            lemma_decimal_shape(r);
            lemma_dec_value_decimal(r);
            assert(k == di + seq!['['] + dr + seq![']'] + seq!['.'] + dc) by {
                assert(crate::segments::spec_rep_key(i, r) == di + seq!['['] + dr + seq![']']);
                assert(k == crate::segments::spec_rep_key(i, r) + seq!['.'] + dc);
                assert(crate::segments::spec_rep_key(i, r) + seq!['.'] + dc =~= di + seq!['[']
                    + dr + seq![']'] + seq!['.'] + dc);
            }
            assert(k.len() == di.len() + dr.len() + dc.len() + 3);
            assert(forall|x: int| 0 <= x < di.len() ==> #[trigger] k[x] == di[x]);
            assert(k[di.len() as int] == '[');
            assert(forall|x: int|
                0 <= x < dr.len() ==> #[trigger] k[di.len() + 1 + x] == dr[x]);
            assert(k[di.len() + 1 + dr.len() as int] == ']');
            assert(k[di.len() + 2 + dr.len() as int] == '.');
            assert(forall|x: int|
                0 <= x < dc.len() ==> #[trigger] k[di.len() + 3 + dr.len() + x] == dc[x]);
            lemma_digits_end_exact(k, 0, di.len() as int);
            assert(k.subrange(0, di.len() as int) =~= di);
            lemma_digits_end_exact(k, di.len() as int + 1, di.len() + 1 + dr.len() as int);
            assert(k.subrange(di.len() as int + 1, di.len() + 1 + dr.len() as int) =~= dr);
            lemma_digits_end_exact(k, di.len() + 3 + dr.len() as int, k.len() as int);
            assert(k.subrange(di.len() + 3 + dr.len() as int, k.len() as int) =~= dc);
        },
    }
}

/// The entries the decoder collects from the encoded component pairs.
spec fn comp_entries(idx: nat, rep: nat, cs: Seq<Seq<char>>) -> Seq<EntryV>
    decreases cs.len(),
{
    if cs.len() == 0 {
        Seq::empty()
    } else {
        comp_entries(idx, rep, cs.drop_last()) + seq![
            EntryV {
                field: idx,
                rep,
                comp: cs.len() as nat,
                value: spec_escape(spec_default_handler(), cs.last()),
            },
        ]
    }
}

/// The entries the decoder collects from one encoded repetition.
spec fn rep_entries(idx: nat, r: nat, rep: RepV) -> Seq<EntryV> {
    match rep.components {
        Some(cs) => comp_entries(idx, r, cs),
        None => seq![
            EntryV {
                field: idx,
                rep: r,
                comp: 0,
                value: spec_escape(spec_default_handler(), rep.value),
            },
        ],
    }
}

spec fn reps_entries(idx: nat, rs: Seq<RepV>) -> Seq<EntryV>
    decreases rs.len(),
{
    if rs.len() == 0 {
        Seq::empty()
    } else {
        reps_entries(idx, rs.drop_last()) + rep_entries(idx, (rs.len() - 1) as nat, rs.last())
    }
}

/// The entries the decoder collects from one encoded field.
spec fn field_entries(idx: nat, f: FieldV) -> Seq<EntryV> {
    match f.repetitions {
        Some(rs) => reps_entries(idx, rs),
        None => match f.components {
            Some(cs) => comp_entries(idx, 0, cs),
            None => seq![
                EntryV {
                    field: idx,
                    rep: 0,
                    comp: 0,
                    value: spec_escape(spec_default_handler(), f.value),
                },
            ],
        },
    }
}

spec fn fields_entries(fs: Seq<FieldV>) -> Seq<EntryV>
    decreases fs.len(),
{
    if fs.len() == 0 {
        Seq::empty()
    } else {
        fields_entries(fs.drop_last()) + field_entries(fs.len() as nat, fs.last())
    }
}

/// Whether the indices of a segment fit the machine word, as the executable
/// decoder's key parser requires.
pub open spec fn seg_bounded(seg: SegV) -> bool {
    &&& seg.fields.len() <= usize::MAX
    &&& forall|i: int| 0 <= i < seg.fields.len() ==> field_bounded(#[trigger] seg.fields[i])
}

pub open spec fn field_bounded(f: FieldV) -> bool {
    &&& (f.components matches Some(cs) ==> cs.len() <= usize::MAX)
    &&& (f.repetitions matches Some(rs) ==> rs.len() <= usize::MAX && (forall|r: int|
        0 <= r < rs.len() ==> ((#[trigger] rs[r]).components matches Some(cs) ==> cs.len()
            <= usize::MAX)))
}

/// Whether every present component or repetition list of a field is
/// non-empty, as the parser always produces them.
pub open spec fn field_populated(f: FieldV) -> bool {
    &&& (f.components matches Some(cs) ==> cs.len() >= 1)
    &&& (f.repetitions matches Some(rs) ==> rs.len() >= 1 && (forall|r: int|
        0 <= r < rs.len() ==> rep_has_components_shape(#[trigger] rs[r])))
}

proof fn lemma_entries_concat(a: Seq<(Seq<char>, Seq<char>)>, b: Seq<(Seq<char>, Seq<char>)>)
    ensures
        crate::json_hl7::spec_entries(spec_default_handler(), a + b)
            == crate::json_hl7::spec_entries(spec_default_handler(), a)
            + crate::json_hl7::spec_entries(spec_default_handler(), b),
    decreases b.len(),
{
    let h = spec_default_handler();
    if b.len() == 0 {
        assert(a + b =~= a);
        assert(crate::json_hl7::spec_entries(h, a) + crate::json_hl7::spec_entries(h, b)
            =~= crate::json_hl7::spec_entries(h, a));
    } else {
        lemma_entries_concat(a, b.drop_last());
        assert((a + b).drop_last() =~= a + b.drop_last());
        assert((a + b).last() == b.last());
        assert(crate::json_hl7::spec_entries(h, a) + (crate::json_hl7::spec_entries(
            h,
            b.drop_last(),
        ) + crate::json_hl7::spec_entry_of(h, b.last())) =~= (crate::json_hl7::spec_entries(h, a)
            + crate::json_hl7::spec_entries(h, b.drop_last())) + crate::json_hl7::spec_entry_of(
            h,
            b.last(),
        ));
    }
}

proof fn lemma_name_of_concat(a: Seq<(Seq<char>, Seq<char>)>, b: Seq<(Seq<char>, Seq<char>)>)
    ensures
        crate::json_hl7::spec_name_of(a + b) == (if crate::json_hl7::spec_name_of(b) is Some {
            crate::json_hl7::spec_name_of(b)
        } else {
            crate::json_hl7::spec_name_of(a)
        }),
    decreases b.len(),
{
    if b.len() == 0 {
        assert(a + b =~= a);
    } else {
        lemma_name_of_concat(a, b.drop_last());
        assert((a + b).drop_last() =~= a + b.drop_last());
        assert((a + b).last() == b.last());
    }
}

/// A key that starts with a digit is not the segment-name key.
proof fn lemma_data_key_not_name(k: Seq<char>)
    requires
        k.len() >= 1,
        is_digit(k[0]),
    ensures
        k != crate::segments::segment_name_key(),
{
    proof_strlit_segment_name();
    if k == crate::segments::segment_name_key() {
        assert(k[0] == 's');
    }
}

proof fn proof_strlit_segment_name()
    ensures
        crate::segments::segment_name_key().len() == 12,
        crate::segments::segment_name_key()[0] == 's',
{
    reveal_strlit("segment_name");
}

/// One encoded data pair contributes exactly its one entry.
proof fn lemma_entry_of_pair(idx: nat, rep: Option<nat>, comp: Option<nat>, v: Seq<char>)
    requires
        idx <= usize::MAX,
        rep matches Some(r) ==> r <= usize::MAX,
        comp matches Some(c) ==> c <= usize::MAX,
    ensures
        ({
            let key = match (rep, comp) {
                (None, None) => crate::segments::spec_field_key(idx),
                (Some(r), None) => crate::segments::spec_rep_key(idx, r),
                (_, Some(c)) => crate::segments::spec_comp_key(idx, rep, c),
            };
            crate::json_hl7::spec_entry_of(spec_default_handler(), (key, v)) == seq![
                EntryV {
                    field: idx,
                    rep: match rep {
                        Some(r) => r,
                        None => 0,
                    },
                    comp: match comp {
                        Some(c) => c,
                        None => 0,
                    },
                    value: spec_escape(spec_default_handler(), v),
                },
            ] && key != crate::segments::segment_name_key()
        }),
{
    lemma_decimal_shape(idx);
    match (rep, comp) {
        (None, None) => {
            let key = crate::segments::spec_field_key(idx);
            lemma_parse_field_key(idx);
            assert(key[0] == spec_decimal(idx)[0]);
            lemma_data_key_not_name(key);
        },
        (Some(r), None) => {
            let key = crate::segments::spec_rep_key(idx, r);
            lemma_parse_rep_key(idx, r);
            assert(key[0] == spec_decimal(idx)[0]);
            lemma_data_key_not_name(key);
        },
        (_, Some(c)) => {
            let key = crate::segments::spec_comp_key(idx, rep, c);
            lemma_parse_comp_key(idx, rep, c);
            assert(key[0] == spec_decimal(idx)[0]) by {
                match rep {
                    None => {},
                    Some(r) => {
                        assert(crate::segments::spec_rep_key(idx, r)[0] == spec_decimal(idx)[0]);
                    },
                }
            }
            lemma_data_key_not_name(key);
        },
    }
}

proof fn lemma_single_pair(key: Seq<char>, v: Seq<char>)
    ensures
        crate::json_hl7::spec_entries(spec_default_handler(), seq![(key, v)])
            == crate::json_hl7::spec_entry_of(spec_default_handler(), (key, v)),
        crate::json_hl7::spec_name_of(seq![(key, v)]) == (if key
            == crate::segments::segment_name_key() {
            Some(v)
        } else {
            None
        }),
{
    let h = spec_default_handler();
    let single = seq![(key, v)];
    let empty = Seq::<(Seq<char>, Seq<char>)>::empty();
    assert(single.drop_last() =~= empty);
    assert(crate::json_hl7::spec_entries(h, empty) == Seq::<EntryV>::empty());
    assert(crate::json_hl7::spec_name_of(empty) is None);
    assert(single.last() == (key, v));
    assert(crate::json_hl7::spec_entries(h, single) =~= crate::json_hl7::spec_entry_of(
        h,
        (key, v),
    ));
}

proof fn lemma_entries_comp_pairs(idx: nat, rep: Option<nat>, cs: Seq<Seq<char>>)
    requires
        idx <= usize::MAX,
        cs.len() <= usize::MAX,
        rep matches Some(r) ==> r <= usize::MAX,
    ensures
        crate::json_hl7::spec_entries(
            spec_default_handler(),
            crate::segments::spec_comp_pairs(idx, rep, cs),
        ) == comp_entries(
            idx,
            match rep {
                Some(r) => r,
                None => 0,
            },
            cs,
        ),
        crate::json_hl7::spec_name_of(crate::segments::spec_comp_pairs(idx, rep, cs)) is None,
    decreases cs.len(),
{
    let h = spec_default_handler();
    let ps = crate::segments::spec_comp_pairs(idx, rep, cs);
    if cs.len() == 0 {
    } else {
        lemma_entries_comp_pairs(idx, rep, cs.drop_last());
        let prefix = crate::segments::spec_comp_pairs(idx, rep, cs.drop_last());
        let key = crate::segments::spec_comp_key(idx, rep, cs.len() as nat);
        let single = seq![(key, cs.last())];
        assert(ps == prefix + single);
        lemma_entries_concat(prefix, single);
        lemma_name_of_concat(prefix, single);
        lemma_entry_of_pair(idx, rep, Some(cs.len() as nat), cs.last());
        lemma_single_pair(key, cs.last());
        assert(crate::json_hl7::spec_entries(h, ps) =~= comp_entries(
            idx,
            match rep {
                Some(r) => r,
                None => 0,
            },
            cs,
        ));
        assert(crate::json_hl7::spec_name_of(single) is None);
    }
}

proof fn lemma_entries_rep_pairs(idx: nat, r: nat, rep: RepV)
    requires
        idx <= usize::MAX,
        r <= usize::MAX,
        rep.components matches Some(cs) ==> cs.len() <= usize::MAX,
    ensures
        crate::json_hl7::spec_entries(
            spec_default_handler(),
            crate::segments::spec_encode_rep(idx, r, rep),
        ) == rep_entries(idx, r, rep),
        crate::json_hl7::spec_name_of(crate::segments::spec_encode_rep(idx, r, rep)) is None,
{
    let h = spec_default_handler();
    match rep.components {
        Some(cs) => {
            lemma_entries_comp_pairs(idx, Some(r), cs);
        },
        None => {
            let key = crate::segments::spec_rep_key(idx, r);
            let single = seq![(key, rep.value)];
            assert(crate::segments::spec_encode_rep(idx, r, rep) == single);
            lemma_entry_of_pair(idx, Some(r), None, rep.value);
            lemma_single_pair(key, rep.value);
            assert(crate::json_hl7::spec_entries(h, single) =~= rep_entries(idx, r, rep));
        },
    }
}

proof fn lemma_entries_reps_pairs(idx: nat, rs: Seq<RepV>)
    requires
        idx <= usize::MAX,
        rs.len() <= usize::MAX,
        forall|x: int|
            0 <= x < rs.len() ==> ((#[trigger] rs[x]).components matches Some(cs) ==> cs.len()
                <= usize::MAX),
    ensures
        crate::json_hl7::spec_entries(
            spec_default_handler(),
            crate::segments::spec_encode_reps(idx, rs),
        ) == reps_entries(idx, rs),
        crate::json_hl7::spec_name_of(crate::segments::spec_encode_reps(idx, rs)) is None,
    decreases rs.len(),
{
    let h = spec_default_handler();
    if rs.len() == 0 {
    } else {
        assert(forall|x: int|
            0 <= x < rs.drop_last().len() ==> #[trigger] rs.drop_last()[x] == rs[x]);
        lemma_entries_reps_pairs(idx, rs.drop_last());
        let prefix = crate::segments::spec_encode_reps(idx, rs.drop_last());
        let last_chunk = crate::segments::spec_encode_rep(idx, (rs.len() - 1) as nat, rs.last());
        assert(crate::segments::spec_encode_reps(idx, rs) == prefix + last_chunk);
        lemma_entries_concat(prefix, last_chunk);
        lemma_name_of_concat(prefix, last_chunk);
        assert(rs.last() == rs[rs.len() - 1]);
        lemma_entries_rep_pairs(idx, (rs.len() - 1) as nat, rs.last());
    }
}

proof fn lemma_entries_field_pairs(idx: nat, f: FieldV)
    requires
        idx <= usize::MAX,
        field_bounded(f),
    ensures
        crate::json_hl7::spec_entries(
            spec_default_handler(),
            spec_encode_field(idx, f),
        ) == field_entries(idx, f),
        crate::json_hl7::spec_name_of(spec_encode_field(idx, f)) is None,
{
    let h = spec_default_handler();
    match f.repetitions {
        Some(rs) => {
            lemma_entries_reps_pairs(idx, rs);
        },
        None => {
            match f.components {
                Some(cs) => {
                    lemma_entries_comp_pairs(idx, None, cs);
                },
                None => {
                    let key = crate::segments::spec_field_key(idx);
                    let single = seq![(key, f.value)];
                    assert(spec_encode_field(idx, f) == single);
                    lemma_entry_of_pair(idx, None, None, f.value);
                    lemma_single_pair(key, f.value);
                    assert(crate::json_hl7::spec_entries(h, single) =~= field_entries(idx, f));
                },
            }
        },
    }
}

proof fn lemma_entries_fields_pairs(fs: Seq<FieldV>)
    requires
        fs.len() <= usize::MAX,
        forall|i: int| 0 <= i < fs.len() ==> field_bounded(#[trigger] fs[i]),
    ensures
        crate::json_hl7::spec_entries(
            spec_default_handler(),
            crate::segments::spec_encode_fields(fs),
        ) == fields_entries(fs),
        crate::json_hl7::spec_name_of(crate::segments::spec_encode_fields(fs)) is None,
    decreases fs.len(),
{
    let h = spec_default_handler();
    if fs.len() == 0 {
    } else {
        assert(forall|i: int|
            0 <= i < fs.drop_last().len() ==> #[trigger] fs.drop_last()[i] == fs[i]);
        lemma_entries_fields_pairs(fs.drop_last());
        let prefix = crate::segments::spec_encode_fields(fs.drop_last());
        let last_chunk = spec_encode_field(fs.len() as nat, fs.last());
        assert(crate::segments::spec_encode_fields(fs) == prefix + last_chunk);
        lemma_entries_concat(prefix, last_chunk);
        lemma_name_of_concat(prefix, last_chunk);
        assert(fs.last() == fs[fs.len() - 1]);
        lemma_entries_field_pairs(fs.len() as nat, fs.last());
    }
}

/// The decoder's collected entries and segment name, on exactly the pairs
/// the encoder emits.
proof fn lemma_entries_encode_segment(seg: SegV)
    requires
        seg_bounded(seg),
    ensures
        crate::json_hl7::spec_entries(
            spec_default_handler(),
            crate::segments::spec_encode_segment(seg),
        ) == fields_entries(seg.fields),
        crate::json_hl7::spec_name_of(crate::segments::spec_encode_segment(seg)) == Some(seg.name),
{
    let h = spec_default_handler();
    let single = seq![(crate::segments::segment_name_key(), seg.name)];
    let fields_pairs = crate::segments::spec_encode_fields(seg.fields);
    assert(crate::segments::spec_encode_segment(seg) == single + fields_pairs);
    lemma_entries_fields_pairs(seg.fields);
    lemma_entries_concat(single, fields_pairs);
    lemma_name_of_concat(single, fields_pairs);
    lemma_single_pair(crate::segments::segment_name_key(), seg.name);
    assert(crate::json_hl7::spec_entries(h, single) =~= Seq::<EntryV>::empty());
    assert(crate::json_hl7::spec_entries(h, crate::segments::spec_encode_segment(seg))
        =~= fields_entries(seg.fields));
    assert(crate::json_hl7::spec_name_of(single) == Some(seg.name));
}

/// How every decoder lookup distributes over concatenated entry lists: the
/// later entries win for slots, and the maxima combine.
proof fn lemma_ops_concat(a: Seq<EntryV>, b: Seq<EntryV>, f: nat, r: nat, c: nat)
    ensures
        crate::json_hl7::spec_slot(a + b, f, r, c) == (if crate::json_hl7::spec_slot(
            b,
            f,
            r,
            c,
        ) is Some {
            crate::json_hl7::spec_slot(b, f, r, c)
        } else {
            crate::json_hl7::spec_slot(a, f, r, c)
        }),
        crate::json_hl7::spec_has_field(a + b, f) == (crate::json_hl7::spec_has_field(a, f)
            || crate::json_hl7::spec_has_field(b, f)),
        crate::json_hl7::spec_has_rep(a + b, f, r) == (crate::json_hl7::spec_has_rep(a, f, r)
            || crate::json_hl7::spec_has_rep(b, f, r)),
        crate::json_hl7::spec_max_field(a + b) == (if crate::json_hl7::spec_max_field(b)
            > crate::json_hl7::spec_max_field(a) {
            crate::json_hl7::spec_max_field(b)
        } else {
            crate::json_hl7::spec_max_field(a)
        }),
        crate::json_hl7::spec_max_rep(a + b, f) == (if crate::json_hl7::spec_max_rep(b, f)
            > crate::json_hl7::spec_max_rep(a, f) {
            crate::json_hl7::spec_max_rep(b, f)
        } else {
            crate::json_hl7::spec_max_rep(a, f)
        }),
        crate::json_hl7::spec_max_comp(a + b, f, r) == (if crate::json_hl7::spec_max_comp(b, f, r)
            > crate::json_hl7::spec_max_comp(a, f, r) {
            crate::json_hl7::spec_max_comp(b, f, r)
        } else {
            crate::json_hl7::spec_max_comp(a, f, r)
        }),
    decreases b.len(),
{
    if b.len() == 0 {
        assert(a + b =~= a);
    } else {
        lemma_ops_concat(a, b.drop_last(), f, r, c);
        assert((a + b).drop_last() =~= a + b.drop_last());
        assert((a + b).last() == b.last());
    }
}

/// Whether every entry belongs to field `f`.
spec fn entries_field_only(es: Seq<EntryV>, f: nat) -> bool {
    forall|i: int| 0 <= i < es.len() ==> (#[trigger] es[i]).field == f
}

/// Whether every entry belongs to repetition `r`.
spec fn entries_rep_only(es: Seq<EntryV>, r: nat) -> bool {
    forall|i: int| 0 <= i < es.len() ==> (#[trigger] es[i]).rep == r
}

/// Every lookup on the empty entry list is trivial.
proof fn lemma_ops_empty(f: nat, r: nat, c: nat)
    ensures
        !crate::json_hl7::spec_has_field(Seq::<EntryV>::empty(), f),
        !crate::json_hl7::spec_has_rep(Seq::<EntryV>::empty(), f, r),
        crate::json_hl7::spec_max_field(Seq::<EntryV>::empty()) == 0,
        crate::json_hl7::spec_max_rep(Seq::<EntryV>::empty(), f) == 0,
        crate::json_hl7::spec_max_comp(Seq::<EntryV>::empty(), f, r) == 0,
        crate::json_hl7::spec_slot(Seq::<EntryV>::empty(), f, r, c) is None,
{
}

/// A chunk of another field is invisible to every lookup at field `f2`.
proof fn lemma_chunk_wrong_field(es: Seq<EntryV>, f: nat, f2: nat, r: nat, c: nat)
    requires
        entries_field_only(es, f),
        f2 != f,
    ensures
        !crate::json_hl7::spec_has_field(es, f2),
        !crate::json_hl7::spec_has_rep(es, f2, r),
        crate::json_hl7::spec_max_rep(es, f2) == 0,
        crate::json_hl7::spec_max_comp(es, f2, r) == 0,
        crate::json_hl7::spec_slot(es, f2, r, c) is None,
    decreases es.len(),
{
    if es.len() > 0 {
        assert(forall|i: int|
            0 <= i < es.drop_last().len() ==> #[trigger] es.drop_last()[i] == es[i]);
        lemma_chunk_wrong_field(es.drop_last(), f, f2, r, c);
        assert(es.last() == es[es.len() - 1]);
    }
}

/// A chunk of another repetition of the same field is invisible to the
/// per-repetition lookups at `r2`.
proof fn lemma_chunk_wrong_rep(es: Seq<EntryV>, f: nat, r: nat, r2: nat, c: nat)
    requires
        entries_rep_only(es, r),
        r2 != r,
    ensures
        !crate::json_hl7::spec_has_rep(es, f, r2),
        crate::json_hl7::spec_max_comp(es, f, r2) == 0,
        crate::json_hl7::spec_slot(es, f, r2, c) is None,
    decreases es.len(),
{
    if es.len() > 0 {
        assert(forall|i: int|
            0 <= i < es.drop_last().len() ==> #[trigger] es.drop_last()[i] == es[i]);
        lemma_chunk_wrong_rep(es.drop_last(), f, r, r2, c);
        assert(es.last() == es[es.len() - 1]);
    }
}

/// The shape of a component chunk: its length, owners, maxima and slots.
proof fn lemma_comp_entries_values(idx: nat, rp: nat, cs: Seq<Seq<char>>)
    ensures
        comp_entries(idx, rp, cs).len() == cs.len(),
        entries_field_only(comp_entries(idx, rp, cs), idx),
        entries_rep_only(comp_entries(idx, rp, cs), rp),
        crate::json_hl7::spec_max_comp(comp_entries(idx, rp, cs), idx, rp) == cs.len(),
        crate::json_hl7::spec_max_rep(comp_entries(idx, rp, cs), idx) == (if cs.len() >= 1 {
            rp
        } else {
            0
        }),
        crate::json_hl7::spec_has_rep(comp_entries(idx, rp, cs), idx, rp) == (cs.len() >= 1),
        crate::json_hl7::spec_has_field(comp_entries(idx, rp, cs), idx) == (cs.len() >= 1),
        forall|c: nat|
            1 <= c <= cs.len() ==> #[trigger] crate::json_hl7::spec_slot(
                comp_entries(idx, rp, cs),
                idx,
                rp,
                c,
            ) == Some(spec_escape(spec_default_handler(), cs[c - 1])),
        crate::json_hl7::spec_slot(comp_entries(idx, rp, cs), idx, rp, 0) is None,
    decreases cs.len(),
{
    let es = comp_entries(idx, rp, cs);
    if cs.len() > 0 {
        lemma_comp_entries_values(idx, rp, cs.drop_last());
        let prev = comp_entries(idx, rp, cs.drop_last());
        assert(es.drop_last() =~= prev);
        assert(es.last() == EntryV {
            field: idx,
            rep: rp,
            comp: cs.len() as nat,
            value: spec_escape(spec_default_handler(), cs.last()),
        });
        assert(forall|i: int| 0 <= i < prev.len() ==> #[trigger] es[i] == prev[i]);
        assert forall|c: nat| 1 <= c <= cs.len() implies #[trigger] crate::json_hl7::spec_slot(
            es,
            idx,
            rp,
            c,
        ) == Some(spec_escape(spec_default_handler(), cs[c - 1])) by {
            if c < cs.len() {
                assert(cs.drop_last()[c - 1] == cs[c - 1]);
                assert(crate::json_hl7::spec_slot(prev, idx, rp, c) == Some(
                    spec_escape(spec_default_handler(), cs.drop_last()[c - 1]),
                ));
                assert(crate::json_hl7::spec_slot(es, idx, rp, c)
                    == crate::json_hl7::spec_slot(es.drop_last(), idx, rp, c));
            } else {
                assert(cs.last() == cs[c - 1]);
            }
        }
    }
}

/// A list with no entry of field `f2` is invisible to every lookup there.
proof fn lemma_chunk_no_field(es: Seq<EntryV>, f2: nat, r: nat, c: nat)
    requires
        forall|i: int| 0 <= i < es.len() ==> (#[trigger] es[i]).field != f2,
    ensures
        !crate::json_hl7::spec_has_field(es, f2),
        !crate::json_hl7::spec_has_rep(es, f2, r),
        crate::json_hl7::spec_max_rep(es, f2) == 0,
        crate::json_hl7::spec_max_comp(es, f2, r) == 0,
        crate::json_hl7::spec_slot(es, f2, r, c) is None,
    decreases es.len(),
{
    if es.len() > 0 {
        assert(forall|i: int|
            0 <= i < es.drop_last().len() ==> #[trigger] es.drop_last()[i] == es[i]);
        lemma_chunk_no_field(es.drop_last(), f2, r, c);
        assert(es.last() == es[es.len() - 1]);
    }
}

/// A list whose entries all sit below repetition `bound` is invisible to
/// the per-repetition lookups at or above it.
proof fn lemma_chunk_rep_below(es: Seq<EntryV>, f: nat, bound: nat, r2: nat, c: nat)
    requires
        forall|i: int| 0 <= i < es.len() ==> (#[trigger] es[i]).rep < bound,
        r2 >= bound,
    ensures
        !crate::json_hl7::spec_has_rep(es, f, r2),
        crate::json_hl7::spec_max_comp(es, f, r2) == 0,
        crate::json_hl7::spec_slot(es, f, r2, c) is None,
    decreases es.len(),
{
    if es.len() > 0 {
        assert(forall|i: int|
            0 <= i < es.drop_last().len() ==> #[trigger] es.drop_last()[i] == es[i]);
        lemma_chunk_rep_below(es.drop_last(), f, bound, r2, c);
        assert(es.last() == es[es.len() - 1]);
    }
}

/// The shape of one repetition's chunk.
proof fn lemma_rep_entries_shape(idx: nat, r: nat, rep: RepV)
    requires
        rep_has_components_shape(rep),
    ensures
        entries_field_only(rep_entries(idx, r, rep), idx),
        entries_rep_only(rep_entries(idx, r, rep), r),
        rep_entries(idx, r, rep).len() >= 1,
        crate::json_hl7::spec_has_rep(rep_entries(idx, r, rep), idx, r),
        crate::json_hl7::spec_max_rep(rep_entries(idx, r, rep), idx) == r,
        crate::json_hl7::spec_max_comp(rep_entries(idx, r, rep), idx, r) == (
        match rep.components {
            Some(cs) => cs.len() as nat,
            None => 0,
        }),
        match rep.components {
            Some(cs) => forall|c: nat|
                1 <= c <= cs.len() ==> #[trigger] crate::json_hl7::spec_slot(
                    rep_entries(idx, r, rep),
                    idx,
                    r,
                    c,
                ) == Some(spec_escape(spec_default_handler(), cs[c - 1])),
            None => crate::json_hl7::spec_slot(rep_entries(idx, r, rep), idx, r, 0) == Some(
                spec_escape(spec_default_handler(), rep.value),
            ),
        },
{
    match rep.components {
        Some(cs) => {
            lemma_comp_entries_values(idx, r, cs);
        },
        None => {
            let es = rep_entries(idx, r, rep);
            assert(es.len() == 1);
            assert(es.last() == es[0]);
            assert(es.drop_last() =~= Seq::<EntryV>::empty());
            lemma_ops_empty(idx, r, 0);
        },
    }
}

/// The shape of a whole repetition list's chunk: every entry belongs to the
/// field, sits below the repetition count, and the greatest repetition
/// index is the last one.
proof fn lemma_reps_entries_shape(idx: nat, rs: Seq<RepV>)
    requires
        forall|i: int| 0 <= i < rs.len() ==> rep_has_components_shape(#[trigger] rs[i]),
    ensures
        entries_field_only(reps_entries(idx, rs), idx),
        forall|i: int|
            0 <= i < reps_entries(idx, rs).len() ==> (#[trigger] reps_entries(idx, rs)[i]).rep
                < rs.len(),
        rs.len() >= 1 ==> reps_entries(idx, rs).len() >= 1,
        rs.len() >= 1 ==> crate::json_hl7::spec_max_rep(reps_entries(idx, rs), idx) == rs.len()
            - 1,
    decreases rs.len(),
{
    if rs.len() > 0 {
        assert(forall|i: int|
            0 <= i < rs.drop_last().len() ==> #[trigger] rs.drop_last()[i] == rs[i]);
        lemma_reps_entries_shape(idx, rs.drop_last());
        let prefix = reps_entries(idx, rs.drop_last());
        let last_chunk = rep_entries(idx, (rs.len() - 1) as nat, rs.last());
        assert(rs.last() == rs[rs.len() - 1]);
        lemma_rep_entries_shape(idx, (rs.len() - 1) as nat, rs.last());
        let es = reps_entries(idx, rs);
        assert(es == prefix + last_chunk);
        assert(forall|i: int|
            0 <= i < es.len() ==> #[trigger] es[i] == (if i < prefix.len() {
                prefix[i]
            } else {
                last_chunk[i - prefix.len()]
            }));
        lemma_ops_concat(prefix, last_chunk, idx, 0, 0);
    }
}

/// Locates the per-repetition lookups of a repetition list in the one
/// repetition's own chunk.
proof fn lemma_reps_entries_locate(idx: nat, rs: Seq<RepV>, r: int)
    requires
        0 <= r < rs.len(),
        forall|i: int| 0 <= i < rs.len() ==> rep_has_components_shape(#[trigger] rs[i]),
    ensures
        crate::json_hl7::spec_has_rep(reps_entries(idx, rs), idx, r as nat)
            == crate::json_hl7::spec_has_rep(rep_entries(idx, r as nat, rs[r]), idx, r as nat),
        crate::json_hl7::spec_max_comp(reps_entries(idx, rs), idx, r as nat)
            == crate::json_hl7::spec_max_comp(rep_entries(idx, r as nat, rs[r]), idx, r as nat),
        forall|c: nat|
            #![trigger crate::json_hl7::spec_slot(reps_entries(idx, rs), idx, r as nat, c)]
            crate::json_hl7::spec_slot(reps_entries(idx, rs), idx, r as nat, c)
                == crate::json_hl7::spec_slot(rep_entries(idx, r as nat, rs[r]), idx, r as nat, c),
    decreases rs.len(),
{
    let es = reps_entries(idx, rs);
    let prefix = reps_entries(idx, rs.drop_last());
    let last_chunk = rep_entries(idx, (rs.len() - 1) as nat, rs.last());
    assert(es == prefix + last_chunk);
    assert(forall|i: int|
        0 <= i < rs.drop_last().len() ==> #[trigger] rs.drop_last()[i] == rs[i]);
    lemma_reps_entries_shape(idx, rs.drop_last());
    lemma_rep_entries_shape(idx, (rs.len() - 1) as nat, rs.last());
    assert(rs.last() == rs[rs.len() - 1]);
    if r == rs.len() - 1 {
        lemma_ops_concat(prefix, last_chunk, idx, r as nat, 0);
        lemma_chunk_rep_below(prefix, idx, (rs.len() - 1) as nat, r as nat, 0);
        assert forall|c: nat|
            #![trigger crate::json_hl7::spec_slot(es, idx, r as nat, c)]
            crate::json_hl7::spec_slot(es, idx, r as nat, c) == crate::json_hl7::spec_slot(
                last_chunk,
                idx,
                r as nat,
                c,
            ) by {
            lemma_ops_concat(prefix, last_chunk, idx, r as nat, c);
            lemma_chunk_rep_below(prefix, idx, (rs.len() - 1) as nat, r as nat, c);
        }
    } else {
        lemma_reps_entries_locate(idx, rs.drop_last(), r);
        assert(rs.drop_last()[r] == rs[r]);
        lemma_ops_concat(prefix, last_chunk, idx, r as nat, 0);
        lemma_chunk_wrong_rep(last_chunk, idx, (rs.len() - 1) as nat, r as nat, 0);
        assert forall|c: nat|
            #![trigger crate::json_hl7::spec_slot(es, idx, r as nat, c)]
            crate::json_hl7::spec_slot(es, idx, r as nat, c) == crate::json_hl7::spec_slot(
                prefix,
                idx,
                r as nat,
                c,
            ) by {
            lemma_ops_concat(prefix, last_chunk, idx, r as nat, c);
            lemma_chunk_wrong_rep(last_chunk, idx, (rs.len() - 1) as nat, r as nat, c);
        }
    }
}

/// The shape of one field's chunk.
proof fn lemma_field_entries_shape(idx: nat, f: FieldV)
    requires
        field_populated(f),
    ensures
        entries_field_only(field_entries(idx, f), idx),
        field_entries(idx, f).len() >= 1,
        crate::json_hl7::spec_has_field(field_entries(idx, f), idx),
        crate::json_hl7::spec_max_rep(field_entries(idx, f), idx) == (match f.repetitions {
            Some(rs) => (rs.len() - 1) as nat,
            None => 0,
        }),
{
    let es = field_entries(idx, f);
    match f.repetitions {
        Some(rs) => {
            lemma_reps_entries_shape(idx, rs);
        },
        None => {
            match f.components {
                Some(cs) => {
                    lemma_comp_entries_values(idx, 0, cs);
                },
                None => {
                    assert(es.len() == 1);
                    assert(es.last() == es[0]);
                    assert(es.drop_last() =~= Seq::<EntryV>::empty());
                    lemma_ops_empty(idx, 0, 0);
                },
            }
        },
    }
    assert(es.last() == es[es.len() - 1]);
    assert(es.last().field == idx);
}

/// Every entry of a field list's chunk belongs to one of its fields, and
/// the greatest field index is the field count.
proof fn lemma_fields_entries_shape(fs: Seq<FieldV>)
    requires
        forall|i: int| 0 <= i < fs.len() ==> field_populated(#[trigger] fs[i]),
    ensures
        forall|i: int|
            0 <= i < fields_entries(fs).len() ==> 1 <= (#[trigger] fields_entries(fs)[i]).field
                <= fs.len(),
        crate::json_hl7::spec_max_field(fields_entries(fs)) == fs.len(),
    decreases fs.len(),
{
    if fs.len() > 0 {
        assert(forall|i: int|
            0 <= i < fs.drop_last().len() ==> #[trigger] fs.drop_last()[i] == fs[i]);
        lemma_fields_entries_shape(fs.drop_last());
        let prefix = fields_entries(fs.drop_last());
        let last_chunk = field_entries(fs.len() as nat, fs.last());
        assert(fs.last() == fs[fs.len() - 1]);
        lemma_field_entries_shape(fs.len() as nat, fs.last());
        let es = fields_entries(fs);
        assert(es == prefix + last_chunk);
        assert(forall|i: int|
            0 <= i < es.len() ==> #[trigger] es[i] == (if i < prefix.len() {
                prefix[i]
            } else {
                last_chunk[i - prefix.len()]
            }));
        lemma_ops_concat(prefix, last_chunk, fs.len() as nat, 0, 0);
        lemma_max_field_of_field_only(last_chunk, fs.len() as nat);
    }
}

/// The greatest field index of a non-empty single-field chunk is that
/// field.
proof fn lemma_max_field_of_field_only(es: Seq<EntryV>, f: nat)
    requires
        entries_field_only(es, f),
    ensures
        crate::json_hl7::spec_max_field(es) == (if es.len() >= 1 {
            f
        } else {
            0
        }),
    decreases es.len(),
{
    if es.len() > 0 {
        assert(forall|i: int|
            0 <= i < es.drop_last().len() ==> #[trigger] es.drop_last()[i] == es[i]);
        lemma_max_field_of_field_only(es.drop_last(), f);
        assert(es.last() == es[es.len() - 1]);
    }
}

/// Locates every lookup of a field list at field `f` in that one field's
/// own chunk.
proof fn lemma_fields_entries_locate(fs: Seq<FieldV>, f: int)
    requires
        1 <= f <= fs.len(),
        forall|i: int| 0 <= i < fs.len() ==> field_populated(#[trigger] fs[i]),
    ensures
        crate::json_hl7::spec_has_field(fields_entries(fs), f as nat),
        crate::json_hl7::spec_max_rep(fields_entries(fs), f as nat)
            == crate::json_hl7::spec_max_rep(field_entries(f as nat, fs[f - 1]), f as nat),
        forall|rr: nat|
            #![trigger crate::json_hl7::spec_has_rep(fields_entries(fs), f as nat, rr)]
            crate::json_hl7::spec_has_rep(fields_entries(fs), f as nat, rr)
                == crate::json_hl7::spec_has_rep(field_entries(f as nat, fs[f - 1]), f as nat, rr),
        forall|rr: nat|
            #![trigger crate::json_hl7::spec_max_comp(fields_entries(fs), f as nat, rr)]
            crate::json_hl7::spec_max_comp(fields_entries(fs), f as nat, rr)
                == crate::json_hl7::spec_max_comp(
                field_entries(f as nat, fs[f - 1]),
                f as nat,
                rr,
            ),
        forall|rr: nat, cc: nat|
            #![trigger crate::json_hl7::spec_slot(fields_entries(fs), f as nat, rr, cc)]
            crate::json_hl7::spec_slot(fields_entries(fs), f as nat, rr, cc)
                == crate::json_hl7::spec_slot(field_entries(f as nat, fs[f - 1]), f as nat, rr, cc),
    decreases fs.len(),
{
    let es = fields_entries(fs);
    let prefix = fields_entries(fs.drop_last());
    let last_chunk = field_entries(fs.len() as nat, fs.last());
    assert(es == prefix + last_chunk);
    assert(forall|i: int|
        0 <= i < fs.drop_last().len() ==> #[trigger] fs.drop_last()[i] == fs[i]);
    assert(fs.last() == fs[fs.len() - 1]);
    lemma_fields_entries_shape(fs.drop_last());
    lemma_field_entries_shape(fs.len() as nat, fs.last());
    if f == fs.len() {
        assert forall|rr: nat, cc: nat|
            #![trigger crate::json_hl7::spec_slot(es, f as nat, rr, cc)]
            crate::json_hl7::spec_slot(es, f as nat, rr, cc) == crate::json_hl7::spec_slot(
                last_chunk,
                f as nat,
                rr,
                cc,
            ) by {
            lemma_ops_concat(prefix, last_chunk, f as nat, rr, cc);
            lemma_chunk_no_field(prefix, f as nat, rr, cc);
        }
        assert forall|rr: nat|
            #![trigger crate::json_hl7::spec_has_rep(es, f as nat, rr)]
            crate::json_hl7::spec_has_rep(es, f as nat, rr) == crate::json_hl7::spec_has_rep(
                last_chunk,
                f as nat,
                rr,
            ) && crate::json_hl7::spec_max_comp(es, f as nat, rr)
            == crate::json_hl7::spec_max_comp(last_chunk, f as nat, rr) by {
            lemma_ops_concat(prefix, last_chunk, f as nat, rr, 0);
            lemma_chunk_no_field(prefix, f as nat, rr, 0);
        }
        assert forall|rr: nat|
            #![trigger crate::json_hl7::spec_max_comp(es, f as nat, rr)]
            crate::json_hl7::spec_max_comp(es, f as nat, rr) == crate::json_hl7::spec_max_comp(
                last_chunk,
                f as nat,
                rr,
            ) by {
            lemma_ops_concat(prefix, last_chunk, f as nat, rr, 0);
            lemma_chunk_no_field(prefix, f as nat, rr, 0);
        }
        lemma_ops_concat(prefix, last_chunk, f as nat, 0, 0);
        lemma_chunk_no_field(prefix, f as nat, 0, 0);
    } else {
        lemma_fields_entries_locate(fs.drop_last(), f);
        assert(fs.drop_last()[f - 1] == fs[f - 1]);
        assert forall|rr: nat, cc: nat|
            #![trigger crate::json_hl7::spec_slot(es, f as nat, rr, cc)]
            crate::json_hl7::spec_slot(es, f as nat, rr, cc) == crate::json_hl7::spec_slot(
                prefix,
                f as nat,
                rr,
                cc,
            ) by {
            lemma_ops_concat(prefix, last_chunk, f as nat, rr, cc);
            lemma_chunk_no_field(last_chunk, f as nat, rr, cc);
        }
        assert forall|rr: nat|
            #![trigger crate::json_hl7::spec_has_rep(es, f as nat, rr)]
            crate::json_hl7::spec_has_rep(es, f as nat, rr) == crate::json_hl7::spec_has_rep(
                prefix,
                f as nat,
                rr,
            ) && crate::json_hl7::spec_max_comp(es, f as nat, rr)
            == crate::json_hl7::spec_max_comp(prefix, f as nat, rr) by {
            lemma_ops_concat(prefix, last_chunk, f as nat, rr, 0);
            lemma_chunk_no_field(last_chunk, f as nat, rr, 0);
        }
        assert forall|rr: nat|
            #![trigger crate::json_hl7::spec_max_comp(es, f as nat, rr)]
            crate::json_hl7::spec_max_comp(es, f as nat, rr) == crate::json_hl7::spec_max_comp(
                prefix,
                f as nat,
                rr,
            ) by {
            lemma_ops_concat(prefix, last_chunk, f as nat, rr, 0);
            lemma_chunk_no_field(last_chunk, f as nat, rr, 0);
        }
        lemma_ops_concat(prefix, last_chunk, f as nat, 0, 0);
        lemma_chunk_no_field(last_chunk, f as nat, 0, 0);
    }
}

/// The decoder's text for one repetition, when its lookups resolve into the
/// repetition's own chunk.
proof fn lemma_rep_text_value(es: Seq<EntryV>, idx: nat, r: nat, rep: RepV)
    requires
        rep_has_components_shape(rep),
        crate::json_hl7::spec_has_rep(es, idx, r) == crate::json_hl7::spec_has_rep(
            rep_entries(idx, r, rep),
            idx,
            r,
        ),
        crate::json_hl7::spec_max_comp(es, idx, r) == crate::json_hl7::spec_max_comp(
            rep_entries(idx, r, rep),
            idx,
            r,
        ),
        forall|c: nat|
            #![trigger crate::json_hl7::spec_slot(es, idx, r, c)]
            crate::json_hl7::spec_slot(es, idx, r, c) == crate::json_hl7::spec_slot(
                rep_entries(idx, r, rep),
                idx,
                r,
                c,
            ),
    ensures
        crate::json_hl7::spec_rep_text(spec_default_handler(), es, idx, r) == spec_render_rep(
            rep,
        ),
{
    let h = spec_default_handler();
    lemma_rep_entries_shape(idx, r, rep);
    assert(crate::json_hl7::spec_has_rep(es, idx, r));
    match rep.components {
        Some(cs) => {
            let mc = crate::json_hl7::spec_max_comp(es, idx, r);
            assert(mc == cs.len());
            assert(cs.len() >= 1);
            let lhs_pieces = Seq::new(
                mc,
                |c: int| crate::json_hl7::opt_or_empty(
                    crate::json_hl7::spec_slot(es, idx, r, (c + 1) as nat),
                ),
            );
            let rhs_pieces = cs.map_values(|p: Seq<char>| spec_escape(h, p));
            assert forall|c: int| 0 <= c < mc implies lhs_pieces[c] == rhs_pieces[c] by {
                assert(crate::json_hl7::spec_slot(es, idx, r, (c + 1) as nat) == Some(
                    spec_escape(h, cs[c]),
                ));
            }
            assert(lhs_pieces =~= rhs_pieces);
        },
        None => {
            assert(crate::json_hl7::spec_max_comp(es, idx, r) == 0);
            assert(crate::json_hl7::spec_slot(es, idx, r, 0) == Some(
                spec_escape(h, rep.value),
            ));
        },
    }
}

/// The decoder's text for one field slot of an encoded field list is the
/// rendered field.
proof fn lemma_field_text_value(fs: Seq<FieldV>, f: int)
    requires
        1 <= f <= fs.len(),
        forall|i: int| 0 <= i < fs.len() ==> field_populated(#[trigger] fs[i]),
    ensures
        crate::json_hl7::spec_field_text(spec_default_handler(), fields_entries(fs), f as nat)
            == spec_render_field(fs[f - 1]),
{
    let h = spec_default_handler();
    let es = fields_entries(fs);
    let fv = fs[f - 1];
    lemma_fields_entries_locate(fs, f);
    lemma_field_entries_shape(f as nat, fv);
    assert(crate::json_hl7::spec_has_field(es, f as nat));
    match fv.repetitions {
        Some(rs) => {
            assert(crate::json_hl7::spec_max_rep(es, f as nat) == rs.len() - 1);
            let mr = crate::json_hl7::spec_max_rep(es, f as nat);
            let lhs = Seq::new(
                mr + 1,
                |r: int| crate::json_hl7::spec_rep_text(h, es, f as nat, r as nat),
            );
            let rhs = rs.map_values(|x: RepV| spec_render_rep(x));
            assert forall|r: int| 0 <= r < rs.len() implies lhs[r] == rhs[r] by {
                lemma_reps_entries_locate(f as nat, rs, r);
                assert(field_entries(f as nat, fv) == reps_entries(f as nat, rs));
                assert(crate::json_hl7::spec_has_rep(es, f as nat, r as nat)
                    == crate::json_hl7::spec_has_rep(
                    rep_entries(f as nat, r as nat, rs[r]),
                    f as nat,
                    r as nat,
                ));
                assert(crate::json_hl7::spec_max_comp(es, f as nat, r as nat)
                    == crate::json_hl7::spec_max_comp(
                    rep_entries(f as nat, r as nat, rs[r]),
                    f as nat,
                    r as nat,
                ));
                assert forall|c: nat|
                    #![trigger crate::json_hl7::spec_slot(es, f as nat, r as nat, c)]
                    crate::json_hl7::spec_slot(es, f as nat, r as nat, c)
                        == crate::json_hl7::spec_slot(
                        rep_entries(f as nat, r as nat, rs[r]),
                        f as nat,
                        r as nat,
                        c,
                    ) by {
                    assert(crate::json_hl7::spec_slot(es, f as nat, r as nat, c)
                        == crate::json_hl7::spec_slot(
                        fields_entries(fs),
                        f as nat,
                        r as nat,
                        c,
                    ));
                    assert(crate::json_hl7::spec_slot(
                        reps_entries(f as nat, rs),
                        f as nat,
                        r as nat,
                        c,
                    ) == crate::json_hl7::spec_slot(
                        rep_entries(f as nat, r as nat, rs[r]),
                        f as nat,
                        r as nat,
                        c,
                    ));
                }
                lemma_rep_text_value(es, f as nat, r as nat, rs[r]);
            }
            assert(lhs =~= rhs);
        },
        None => {
            assert(crate::json_hl7::spec_max_rep(es, f as nat) == 0);
            let lhs = Seq::new(
                1,
                |r: int| crate::json_hl7::spec_rep_text(h, es, f as nat, r as nat),
            );
            assert(spec_join(lhs, '~') == lhs[0]);
            let synth = match fv.components {
                Some(cs) => RepV { value: fv.value, components: Some(cs) },
                None => RepV { value: fv.value, components: None },
            };
            assert(rep_entries(f as nat, 0, synth) == field_entries(f as nat, fv));
            assert(rep_has_components_shape(synth));
            lemma_rep_text_value(es, f as nat, 0, synth);
            assert(spec_render_rep(synth) == spec_render_field(fv));
        },
    }
}

/// The flat-key decoder's rebuild of exactly the encoder's pairs is the
/// rendered segment text: decoding inverts encoding, down to the raw line.
pub proof fn lemma_decode_encode(seg: SegV)
    requires
        seg_bounded(seg),
        forall|i: int| 0 <= i < seg.fields.len() ==> field_populated(#[trigger] seg.fields[i]),
    ensures
        crate::json_hl7::spec_decode_pairs(
            spec_default_handler(),
            crate::segments::spec_encode_segment(seg),
        ) == spec_render_segment(seg),
{
    let h = spec_default_handler();
    let ps = crate::segments::spec_encode_segment(seg);
    lemma_entries_encode_segment(seg);
    let es = crate::json_hl7::spec_entries(h, ps);
    assert(es == fields_entries(seg.fields));
    lemma_fields_entries_shape(seg.fields);
    assert(crate::json_hl7::spec_max_field(es) == seg.fields.len());
    let lhs_pieces = seq![
        crate::json_hl7::opt_or_empty(crate::json_hl7::spec_name_of(ps)),
    ] + Seq::new(
        seg.fields.len(),
        |f: int| crate::json_hl7::spec_field_text(h, es, (f + 1) as nat),
    );
    let rhs_pieces = seq![seg.name] + seg.fields.map_values(|x: FieldV| spec_render_field(x));
    assert forall|i: int| 0 <= i < lhs_pieces.len() implies lhs_pieces[i] == rhs_pieces[i] by {
        if i > 0 {
            lemma_field_text_value(seg.fields, i);
        }
    }
    assert(lhs_pieces =~= rhs_pieces);
}

/// Every field the parser produces has populated component and repetition
/// lists.
proof fn lemma_parse_field_populated(s: Seq<char>)
    ensures
        field_populated(spec_parse_field(Some(spec_default_handler()), s)),
{
    let h = spec_default_handler();
    let fv = spec_parse_field(Some(h), s);
    let v = spec_piece_value(Some(h), s);
    if v == guard_text() {
    } else if s.contains(crate::segments::spec_rep_sep(Some(h))) {
        let pieces = spec_split(s, '~');
        lemma_spec_split_from_nonempty(s, '~', 0);
        let rs = pieces.map_values(|p: Seq<char>| spec_parse_rep(Some(h), p));
        assert forall|r: int| 0 <= r < rs.len() implies rep_has_components_shape(
            #[trigger] rs[r],
        ) by {
            lemma_parse_rep_shape(pieces[r]);
        }
    } else {
        lemma_parse_rep_shape(s);
    }
}

/// The whole per-segment round trip of the codec: parse a raw line with
/// escape handling, encode the segment to flat pairs, decode those pairs
/// back to a raw line, re-parse it, and encode again — the flat-key
/// encoding is unchanged. The hypotheses exclude the guard collision
/// described at [`lemma_field_round_trip`], and ask that the parsed
/// segment's index spaces fit the machine word, as the executable decoder
/// does.
pub proof fn lemma_segment_decode_round_trip(line: Seq<char>)
    requires
        line_round_trip_safe(line),
        seg_bounded(crate::segments::spec_parse_segment(Some(spec_default_handler()), line)),
    ensures
        ({
            let h = spec_default_handler();
            let seg = crate::segments::spec_parse_segment(Some(h), line);
            crate::segments::spec_encode_segment(
                crate::segments::spec_parse_segment(
                    Some(h),
                    crate::json_hl7::spec_decode_pairs(
                        h,
                        crate::segments::spec_encode_segment(seg),
                    ),
                ),
            ) == crate::segments::spec_encode_segment(seg)
        }),
{
    let h = spec_default_handler();
    let seg = crate::segments::spec_parse_segment(Some(h), line);
    let parts = spec_split(line, '|');
    lemma_spec_split_from_nonempty(line, '|', 0);
    assert forall|i: int| 0 <= i < seg.fields.len() implies field_populated(
        #[trigger] seg.fields[i],
    ) by {
        assert(seg.fields[i] == spec_parse_field(Some(h), parts.drop_first()[i]));
        lemma_parse_field_populated(parts.drop_first()[i]);
    }
    lemma_decode_encode(seg);
    lemma_segment_round_trip(line);
}

/// The first piece of a split inherits the absence of any character from
/// the whole text.
proof fn lemma_first_piece_inherits(line: Seq<char>, d: char)
    requires
        !line.contains(d),
    ensures
        !spec_split(line, '|')[0].contains(d),
{
    lemma_find_from_bounds(line, '|', 0);
    let piece = spec_split(line, '|')[0];
    if piece.contains(d) {
        let w = choose|w: int| 0 <= w < piece.len() && piece[w] == d;
        assert(line[w] == d);
    }
}

/// The rebuilt line of a segment holds no newline when the segment's name
/// holds none.
proof fn lemma_render_segment_newline_free(seg: SegV)
    requires
        !seg.name.contains('\n'),
    ensures
        !spec_render_segment(seg).contains('\n'),
{
    let renders = seg.fields.map_values(|f: FieldV| spec_render_field(f));
    let pieces = seq![seg.name] + renders;
    assert forall|i: int| 0 <= i < pieces.len() implies !(#[trigger] pieces[i]).contains(
        '\n',
    ) by {
        if i > 0 {
            assert(pieces[i] == renders[i - 1]);
            lemma_render_field_pipe_free(seg.fields[i - 1]);
        }
    }
    lemma_join_free(pieces, '|', '\n');
}

/// The whole-message round trip: split raw text into its segment lines,
/// parse each line with escape handling, encode each segment to its flat
/// mapping, decode the mappings back to message text, split and re-parse —
/// every segment's flat-key encoding is unchanged. The hypotheses are the
/// per-line guard-collision exclusion and machine-word index bounds of
/// [`lemma_segment_decode_round_trip`].
pub proof fn lemma_message_decode_round_trip(text: Seq<char>)
    requires
        forall|li: int|
            0 <= li < spec_split(text, '\n').len() ==> line_round_trip_safe(
                #[trigger] spec_split(text, '\n')[li],
            ),
        forall|li: int|
            0 <= li < spec_split(text, '\n').len() ==> seg_bounded(
                crate::segments::spec_parse_segment(
                    Some(spec_default_handler()),
                    #[trigger] spec_split(text, '\n')[li],
                ),
            ),
    ensures
        ({
            let h = spec_default_handler();
            let lines = spec_split(text, '\n');
            let encs = lines.map_values(
                |l: Seq<char>| crate::segments::spec_encode_segment(
                    crate::segments::spec_parse_segment(Some(h), l),
                ),
            );
            spec_split(crate::json_hl7::spec_decode_message(h, encs), '\n').map_values(
                |l: Seq<char>| crate::segments::spec_encode_segment(
                    crate::segments::spec_parse_segment(Some(h), l),
                ),
            ) == encs
        }),
{
    let h = spec_default_handler();
    let lines = spec_split(text, '\n');
    let encs = lines.map_values(
        |l: Seq<char>| crate::segments::spec_encode_segment(
            crate::segments::spec_parse_segment(Some(h), l),
        ),
    );
    lemma_spec_split_from_nonempty(text, '\n', 0);
    lemma_split_pieces_free(text, '\n');
    let decoded_pieces = encs.map_values(
        |ps: Seq<(Seq<char>, Seq<char>)>| crate::json_hl7::spec_decode_pairs(h, ps),
    );
    let renders = lines.map_values(
        |l: Seq<char>| spec_render_segment(crate::segments::spec_parse_segment(Some(h), l)),
    );
    assert forall|li: int| 0 <= li < lines.len() implies decoded_pieces[li] == renders[li]
        && !(#[trigger] renders[li]).contains('\n') by {
        let line = lines[li];
        let seg = crate::segments::spec_parse_segment(Some(h), line);
        let parts = spec_split(line, '|');
        lemma_spec_split_from_nonempty(line, '|', 0);
        assert forall|i: int| 0 <= i < seg.fields.len() implies field_populated(
            #[trigger] seg.fields[i],
        ) by {
            assert(seg.fields[i] == spec_parse_field(Some(h), parts.drop_first()[i]));
            lemma_parse_field_populated(parts.drop_first()[i]);
        }
        lemma_decode_encode(seg);
        lemma_first_piece_inherits(line, '\n');
        lemma_render_segment_newline_free(seg);
    }
    assert(decoded_pieces =~= renders);
    assert(crate::json_hl7::spec_decode_message(h, encs) == spec_join(renders, '\n'));
    lemma_split_join(renders, '\n');
    let relines = spec_split(crate::json_hl7::spec_decode_message(h, encs), '\n');
    assert(relines == renders);
    let reencs = relines.map_values(
        |l: Seq<char>| crate::segments::spec_encode_segment(
            crate::segments::spec_parse_segment(Some(h), l),
        ),
    );
    assert forall|li: int| 0 <= li < lines.len() implies reencs[li] == encs[li] by {
        assert(relines[li] == spec_render_segment(
            crate::segments::spec_parse_segment(Some(h), lines[li]),
        ));
        lemma_segment_round_trip(lines[li]);
    }
    assert(reencs =~= encs);
}

} // verus!
