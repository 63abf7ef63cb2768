//! Character-level helpers shared by the codec modules: splitting and joining
//! on a separator character, string equality, and decimal rendering.

use vstd::prelude::*;

verus! {

/// Relies on std's `String::push`: appends exactly one character at the end.
#[verifier::external_body]
pub(crate) fn push_char(s: &mut String, c: char)
    ensures
        final(s)@ == old(s)@.push(c),
{
    s.push(c);
}

/// Character-by-character string equality, so that contracts can speak of
/// the views of two strings being equal.
pub(crate) fn str_eq(a: &str, b: &str) -> (r: bool)
    ensures
        r == (a@ == b@),
{
    let na = a.unicode_len();
    let nb = b.unicode_len();
    if na != nb {
        return false;
    }
    let mut i: usize = 0;
    while i < na
        invariant
            na == a@.len(),
            na == b@.len(),
            i <= na,
            forall|k: int| 0 <= k < i ==> a@[k] == b@[k],
        decreases na - i,
    {
        if a.get_char(i) != b.get_char(i) {
            return false;
        }
        i += 1;
    }
    proof {
        assert(a@ =~= b@);
    }
    true
}

/// The first index at or after `i` where `c` occurs in `s`, or `s.len()`
/// when there is none.
pub open spec fn find_from(s: Seq<char>, c: char, i: int) -> int
    decreases s.len() - i when 0 <= i <= s.len()
{
    if i >= s.len() {
        i
    } else if s[i] == c {
        i
    } else {
        find_from(s, c, i + 1)
    }
}

pub proof fn lemma_find_from_bounds(s: Seq<char>, c: char, i: int)
    requires
        0 <= i <= s.len(),
    ensures
        i <= find_from(s, c, i) <= s.len(),
        find_from(s, c, i) < s.len() ==> s[find_from(s, c, i)] == c,
        forall|k: int| i <= k < find_from(s, c, i) ==> s[k] != c,
    decreases s.len() - i,
{
    if i < s.len() && s[i] != c {
        lemma_find_from_bounds(s, c, i + 1);
    }
}

/// The pieces of `s` from index `i` on, split on the separator `c`.
/// Splitting always yields at least one piece, as `str::split` does.
pub open spec fn spec_split_from(s: Seq<char>, c: char, i: int) -> Seq<Seq<char>>
    decreases s.len() - i when 0 <= i <= s.len() via spec_split_from_decreases
{
    let k = find_from(s, c, i);
    if k >= s.len() {
        seq![s.subrange(i, s.len() as int)]
    } else {
        seq![s.subrange(i, k)] + spec_split_from(s, c, k + 1)
    }
}

#[via_fn]
proof fn spec_split_from_decreases(s: Seq<char>, c: char, i: int) {
    lemma_find_from_bounds(s, c, i);
}

/// The pieces of `s` split on the separator `c`.
pub open spec fn spec_split(s: Seq<char>, c: char) -> Seq<Seq<char>> {
    spec_split_from(s, c, 0)
}

pub proof fn lemma_spec_split_from_nonempty(s: Seq<char>, c: char, i: int)
    requires
        0 <= i <= s.len(),
    ensures
        spec_split_from(s, c, i).len() >= 1,
{
    lemma_find_from_bounds(s, c, i);
}

/// The pieces joined with the separator `c` between consecutive pieces.
pub open spec fn spec_join(ps: Seq<Seq<char>>, c: char) -> Seq<char>
    decreases ps.len(),
{
    if ps.len() == 0 {
        Seq::empty()
    } else if ps.len() == 1 {
        ps[0]
    } else {
        ps[0] + seq![c] + spec_join(ps.drop_first(), c)
    }
}

pub proof fn lemma_spec_join_push(ps: Seq<Seq<char>>, p: Seq<char>, c: char)
    ensures
        ps.len() == 0 ==> spec_join(ps.push(p), c) == p,
        ps.len() >= 1 ==> spec_join(ps.push(p), c) == spec_join(ps, c) + seq![c] + p,
    decreases ps.len(),
{
    if ps.len() == 0 {
        assert(ps.push(p)[0] == p);
        assert(spec_join(ps.push(p), c) == p);
    } else if ps.len() == 1 {
        assert(ps.push(p).drop_first() =~= seq![p]);
        assert(spec_join(seq![p], c) == p);
        assert(ps.push(p)[0] == ps[0]);
        assert(spec_join(ps.push(p), c) == ps[0] + seq![c] + p);
        assert(spec_join(ps, c) == ps[0]);
    } else {
        lemma_spec_join_push(ps.drop_first(), p, c);
        assert(ps.push(p).drop_first() =~= ps.drop_first().push(p));
        assert(spec_join(ps, c) + seq![c] + p =~= ps[0] + seq![c] + (spec_join(
            ps.drop_first(),
            c,
        ) + seq![c] + p));
    }
}

pub proof fn lemma_find_from_shift(a: Seq<char>, b: Seq<char>, c: char, j: int)
    requires
        0 <= j <= b.len(),
    ensures
        find_from(a + b, c, a.len() + j) == a.len() + find_from(b, c, j),
    decreases b.len() - j,
{
    if j < b.len() {
        assert((a + b)[a.len() + j] == b[j]);
        if b[j] != c {
            lemma_find_from_shift(a, b, c, j + 1);
        }
    }
}

pub proof fn lemma_split_from_shift(a: Seq<char>, b: Seq<char>, c: char, j: int)
    requires
        0 <= j <= b.len(),
    ensures
        spec_split_from(a + b, c, a.len() + j) == spec_split_from(b, c, j),
    decreases b.len() - j,
{
    lemma_find_from_shift(a, b, c, j);
    lemma_find_from_bounds(b, c, j);
    let k = find_from(b, c, j);
    if k >= b.len() {
        assert((a + b).subrange(a.len() + j, (a + b).len() as int) =~= b.subrange(
            j,
            b.len() as int,
        ));
    } else {
        assert((a + b).subrange(a.len() + j, a.len() + k) =~= b.subrange(j, k));
        lemma_split_from_shift(a, b, c, k + 1);
    }
}

/// Joining the pieces of a split restores the original text.
pub proof fn lemma_join_split_from(s: Seq<char>, c: char, i: int)
    requires
        0 <= i <= s.len(),
    ensures
        spec_join(spec_split_from(s, c, i), c) == s.subrange(i, s.len() as int),
    decreases s.len() - i,
{
    lemma_find_from_bounds(s, c, i);
    let k = find_from(s, c, i);
    if k >= s.len() {
        assert(spec_join(seq![s.subrange(i, s.len() as int)], c) == s.subrange(i, s.len() as int));
    } else {
        lemma_join_split_from(s, c, k + 1);
        lemma_spec_split_from_nonempty(s, c, k + 1);
        let ps = spec_split_from(s, c, i);
        assert(ps[0] == s.subrange(i, k));
        assert(ps.drop_first() =~= spec_split_from(s, c, k + 1));
        assert(spec_join(ps, c) == s.subrange(i, k) + seq![c] + s.subrange(k + 1, s.len() as int));
        assert(s.subrange(i, k) + seq![c] + s.subrange(k + 1, s.len() as int) =~= s.subrange(
            i,
            s.len() as int,
        ));
    }
}

/// Joining the pieces of a split restores the original text.
pub proof fn lemma_join_split(s: Seq<char>, c: char)
    ensures
        spec_join(spec_split(s, c), c) == s,
{
    lemma_join_split_from(s, c, 0);
    assert(s.subrange(0, s.len() as int) =~= s);
}

/// No piece of a split contains the separator.
pub proof fn lemma_split_pieces_free_from(s: Seq<char>, c: char, i: int)
    requires
        0 <= i <= s.len(),
    ensures
        forall|k: int|
            0 <= k < spec_split_from(s, c, i).len() ==> !(#[trigger] spec_split_from(s, c, i)[k])
                .contains(c),
    decreases s.len() - i,
{
    lemma_find_from_bounds(s, c, i);
    let k = find_from(s, c, i);
    let piece = s.subrange(i, if k >= s.len() {
        s.len() as int
    } else {
        k
    });
    assert(!piece.contains(c)) by {
        if piece.contains(c) {
            let w = choose|w: int| 0 <= w < piece.len() && piece[w] == c;
            assert(s[i + w] == c);
        }
    }
    if k < s.len() {
        lemma_split_pieces_free_from(s, c, k + 1);
        assert(forall|x: int|
            0 <= x < spec_split_from(s, c, k + 1).len() ==> spec_split_from(s, c, i)[x + 1]
                == #[trigger] spec_split_from(s, c, k + 1)[x]);
    }
}

/// No piece of a split contains the separator.
pub proof fn lemma_split_pieces_free(s: Seq<char>, c: char)
    ensures
        forall|k: int|
            0 <= k < spec_split(s, c).len() ==> !(#[trigger] spec_split(s, c)[k]).contains(c),
{
    lemma_split_pieces_free_from(s, c, 0);
}

/// Splitting a join of separator-free pieces restores the pieces.
pub proof fn lemma_split_join(pieces: Seq<Seq<char>>, c: char)
    requires
        pieces.len() >= 1,
        forall|i: int| 0 <= i < pieces.len() ==> !(#[trigger] pieces[i]).contains(c),
    ensures
        spec_split(spec_join(pieces, c), c) == pieces,
    decreases pieces.len(),
{
    let s = spec_join(pieces, c);
    if pieces.len() == 1 {
        assert(s == pieces[0]);
        lemma_find_from_bounds(s, c, 0);
        if find_from(s, c, 0) < s.len() {
            assert(s.contains(c));
        }
        assert(spec_split(s, c) == seq![s.subrange(0, s.len() as int)]);
        assert(s.subrange(0, s.len() as int) =~= pieces[0]);
        assert(spec_split(s, c) =~= pieces);
    } else {
        let p0 = pieces[0];
        let rest = pieces.drop_first();
        assert(s == p0 + seq![c] + spec_join(rest, c));
        assert(s[p0.len() as int] == c);
        lemma_find_from_bounds(s, c, 0);
        let f = find_from(s, c, 0);
        assert(f == p0.len()) by {
            if f < p0.len() {
                assert(s[f] == p0[f]);
                assert(p0.contains(c));
            }
            if f > p0.len() {
                assert(s[p0.len() as int] != c);
            }
        }
        assert(spec_split(s, c) == seq![s.subrange(0, p0.len() as int)] + spec_split_from(
            s,
            c,
            p0.len() as int + 1,
        ));
        assert(s.subrange(0, p0.len() as int) =~= p0);
        let a = p0 + seq![c];
        assert(s =~= a + spec_join(rest, c));
        lemma_split_from_shift(a, spec_join(rest, c), c, 0);
        lemma_split_join(rest, c);
        assert(spec_split(s, c) =~= pieces) by {
            assert(spec_split_from(s, c, p0.len() as int + 1) == spec_split(
                spec_join(rest, c),
                c,
            ));
        }
    }
}

/// A join of two or more pieces contains the separator.
pub proof fn lemma_join_contains(pieces: Seq<Seq<char>>, c: char)
    requires
        pieces.len() >= 2,
    ensures
        spec_join(pieces, c).contains(c),
{
    let s = spec_join(pieces, c);
    assert(s == pieces[0] + seq![c] + spec_join(pieces.drop_first(), c));
    assert(s[pieces[0].len() as int] == c);
}

/// A join on one separator stays free of another character when every piece
/// is.
pub proof fn lemma_join_free(pieces: Seq<Seq<char>>, c: char, d: char)
    requires
        c != d,
        forall|i: int| 0 <= i < pieces.len() ==> !(#[trigger] pieces[i]).contains(d),
    ensures
        !spec_join(pieces, c).contains(d),
    decreases pieces.len(),
{
    let s = spec_join(pieces, c);
    if pieces.len() == 0 {
        if s.contains(d) {
            let w = choose|w: int| 0 <= w < s.len() && s[w] == d;
        }
    } else if pieces.len() == 1 {
        assert(s == pieces[0]);
    } else {
        lemma_join_free(pieces.drop_first(), c, d);
        let p0 = pieces[0];
        let rest = spec_join(pieces.drop_first(), c);
        assert(s == p0 + seq![c] + rest);
        if s.contains(d) {
            let w = choose|w: int| 0 <= w < s.len() && s[w] == d;
            if w < p0.len() {
                assert(p0[w] == d);
                assert(p0.contains(d));
            } else if w == p0.len() {
            } else {
                assert(rest[w - p0.len() - 1] == d);
                assert(rest.contains(d));
            }
        }
    }
}

/// Whether `s` contains the character `c`.
pub(crate) fn contains_char(s: &str, c: char) -> (r: bool)
    ensures
        r == s@.contains(c),
{
    let n = s.unicode_len();
    let mut i: usize = 0;
    while i < n
        invariant
            n == s@.len(),
            i <= n,
            forall|k: int| 0 <= k < i ==> s@[k] != c,
        decreases n - i,
    {
        if s.get_char(i) == c {
            assert(s@[i as int] == c);
            return true;
        }
        i += 1;
    }
    assert(!s@.contains(c));
    false
}

/// Splits `s` on the separator character `c`, as `str::split` does: the
/// result always holds at least one piece, and empty pieces are kept.
pub(crate) fn split_chars(s: &str, c: char) -> (r: Vec<String>)
    ensures
        r.deep_view() == spec_split(s@, c),
{
    let n = s.unicode_len();
    let mut out: Vec<String> = Vec::new();
    let mut cur = String::new();
    let mut start: usize = 0;
    let mut i: usize = 0;
    proof {
        lemma_find_from_bounds(s@, c, 0);
        assert(cur@ =~= s@.subrange(0, 0));
    }
    while i < n
        invariant
            n == s@.len(),
            start <= i <= n,
            cur@ == s@.subrange(start as int, i as int),
            find_from(s@, c, start as int) >= i,
            spec_split(s@, c) == out.deep_view() + spec_split_from(s@, c, start as int),
        decreases n - i,
    {
        let ch = s.get_char(i);
        if ch == c {
            proof {
                lemma_find_from_bounds(s@, c, start as int);
                assert(s@[i as int] == c);
                assert(find_from(s@, c, start as int) == i);
                lemma_find_from_bounds(s@, c, i + 1);
                assert(spec_split_from(s@, c, start as int) == seq![
                    s@.subrange(start as int, i as int),
                ] + spec_split_from(s@, c, i + 1));
                assert((out.deep_view() + spec_split_from(s@, c, start as int)) =~= (
                out.deep_view().push(cur@) + spec_split_from(s@, c, i + 1)));
            }
            out.push(cur);
            cur = String::new();
            start = i + 1;
            proof {
                assert(cur@ =~= s@.subrange(start as int, start as int));
            }
        } else {
            let ghost old_cur = cur@;
            push_char(&mut cur, ch);
            proof {
                assert(cur@ =~= s@.subrange(start as int, i + 1));
                lemma_find_from_bounds(s@, c, start as int);
                assert(s@[i as int] != c);
                assert(find_from(s@, c, start as int) != i);
            }
        }
        i += 1;
    }
    proof {
        assert(find_from(s@, c, start as int) >= n);
        lemma_find_from_bounds(s@, c, start as int);
        assert(find_from(s@, c, start as int) == n);
        assert(spec_split_from(s@, c, start as int) == seq![s@.subrange(start as int, n as int)]);
        assert((out.deep_view() + spec_split_from(s@, c, start as int)) =~= out.deep_view().push(
            cur@,
        ));
    }
    out.push(cur);
    proof {
        assert(out.deep_view() =~= spec_split(s@, c));
    }
    out
}

/// Joins the pieces with the separator character `c` between them.
pub(crate) fn join_chars(v: &Vec<String>, c: char) -> (r: String)
    ensures
        r@ == spec_join(v.deep_view(), c),
{
    let mut r = String::new();
    let mut i: usize = 0;
    while i < v.len()
        invariant
            i <= v@.len(),
            r@ == spec_join(v.deep_view().take(i as int), c),
        decreases v@.len() - i,
    {
        proof {
            assert(v.deep_view().take(i + 1) =~= v.deep_view().take(i as int).push(v@[i as int]@));
            lemma_spec_join_push(v.deep_view().take(i as int), v@[i as int]@, c);
        }
        if i > 0 {
            push_char(&mut r, c);
        }
        r.append(v[i].as_str());
        proof {
            if i == 0 {
                assert(v.deep_view().take(0int) =~= Seq::<Seq<char>>::empty());
                assert(r@ =~= v@[0int]@);
            }
        }
        i += 1;
    }
    proof {
        assert(v.deep_view().take(v@.len() as int) =~= v.deep_view());
    }
    r
}

/// The character for one decimal digit.
pub open spec fn digit_char(d: nat) -> char {
    ((48 + d) as u8) as char
}

/// The canonical decimal rendering of `n`, with no leading zeros.
pub open spec fn spec_decimal(n: nat) -> Seq<char>
    decreases n,
{
    if n < 10 {
        seq![digit_char(n)]
    } else {
        spec_decimal(n / 10).push(digit_char(n % 10))
    }
}

/// Renders `n` in canonical decimal form.
pub(crate) fn usize_to_string(n: usize) -> (r: String)
    ensures
        r@ == spec_decimal(n as nat),
    decreases n,
{
    let d = ((n % 10) as u8 + 48) as char;
    let mut r = if n >= 10 {
        usize_to_string(n / 10)
    } else {
        String::new()
    };
    push_char(&mut r, d);
    proof {
        if n < 10 {
            assert(r@ =~= seq![digit_char(n as nat)]);
        } else {
            assert(r@ =~= spec_decimal((n / 10) as nat).push(digit_char((n % 10) as nat)));
        }
    }
    r
}

} // verus!
