//! Line-ending normalization and segment splitting.

use vstd::prelude::*;

use crate::text::{push_char, spec_split, split_chars};

verus! {

/// The leftmost-first, non-overlapping replacement of `pat` by `rep` in `s`,
/// scanning from index `i`; replaced text is not rescanned.
pub open spec fn spec_replace_from(s: Seq<char>, pat: Seq<char>, rep: Seq<char>, i: int) -> Seq<
    char,
>
    decreases s.len() - i when 0 <= i <= s.len() && pat.len() >= 1
{
    if i >= s.len() {
        Seq::empty()
    } else if i + pat.len() <= s.len() && s.subrange(i, i + pat.len()) == pat {
        rep + spec_replace_from(s, pat, rep, i + pat.len())
    } else {
        seq![s[i]] + spec_replace_from(s, pat, rep, i + 1)
    }
}

/// Every occurrence of `pat` in `s` replaced by `rep`.
pub open spec fn spec_replace(s: Seq<char>, pat: Seq<char>, rep: Seq<char>) -> Seq<char> {
    spec_replace_from(s, pat, rep, 0)
}

/// Whether `pat` occurs in `text` starting at index `i`.
fn matches_at(text: &str, i: usize, pat: &str) -> (r: bool)
    requires
        i <= text@.len(),
    ensures
        r == (i + pat@.len() <= text@.len() && text@.subrange(i as int, i + pat@.len()) == pat@),
{
    let n = text.unicode_len();
    let m = pat.unicode_len();
    if m > n - i {
        return false;
    }
    let mut k: usize = 0;
    while k < m
        invariant
            n == text@.len(),
            m == pat@.len(),
            i + m <= n,
            k <= m,
            forall|q: int| 0 <= q < k ==> text@[i + q] == pat@[q],
        decreases m - k,
    {
        if text.get_char(i + k) != pat.get_char(k) {
            assert(text@.subrange(i as int, i + pat@.len()) != pat@) by {
                assert(text@.subrange(i as int, i + pat@.len())[k as int] == text@[i + k]);
            }
            return false;
        }
        k += 1;
    }
    proof {
        assert(text@.subrange(i as int, i + pat@.len()) =~= pat@);
    }
    true
}

/// Replaces every occurrence of `pat` in `text` by `rep`, scanning left to
/// right without rescanning replaced text.
fn replace_seq(text: &str, pat: &str, rep: &str) -> (r: String)
    requires
        pat@.len() >= 1,
    ensures
        r@ == spec_replace(text@, pat@, rep@),
{
    let n = text.unicode_len();
    let mut res = String::new();
    let mut i: usize = 0;
    while i < n
        invariant
            n == text@.len(),
            pat@.len() >= 1,
            i <= n,
            spec_replace(text@, pat@, rep@) == res@ + spec_replace_from(text@, pat@, rep@, i as int),
        decreases n - i,
    {
        let ghost r0 = res@;
        if matches_at(text, i, pat) {
            res.append(rep);
            proof {
                assert(r0 + spec_replace_from(text@, pat@, rep@, i as int) =~= res@
                    + spec_replace_from(text@, pat@, rep@, i + pat@.len()));
            }
            i += pat.unicode_len();
        } else {
            push_char(&mut res, text.get_char(i));
            proof {
                assert(r0 + spec_replace_from(text@, pat@, rep@, i as int) =~= res@
                    + spec_replace_from(text@, pat@, rep@, i + 1));
            }
            i += 1;
        }
    }
    proof {
        assert(spec_replace_from(text@, pat@, rep@, n as int) =~= Seq::<char>::empty());
        assert(res@ =~= res@ + spec_replace_from(text@, pat@, rep@, n as int));
    }
    res
}

/// Line endings normalized to a single newline: first every carriage-return
/// newline pair, then every newline carriage-return pair, then every bare
/// carriage return.
pub open spec fn spec_normalize_eol(s: Seq<char>) -> Seq<char> {
    spec_replace(spec_replace(spec_replace(s, "\r\n"@, "\n"@), "\n\r"@, "\n"@), "\r"@, "\n"@)
}

/// Normalizes line endings to a single newline.
pub fn replace_eof(hl7_string: String) -> (r: String)
    ensures
        r@ == spec_normalize_eol(hl7_string@),
{
    proof {
        reveal_strlit("\r\n");
        reveal_strlit("\n\r");
        reveal_strlit("\r");
    }
    let a = replace_seq(hl7_string.as_str(), "\r\n", "\n");
    let b = replace_seq(a.as_str(), "\n\r", "\n");
    replace_seq(b.as_str(), "\r", "\n")
}

/// Splits a message into its segment lines on the newline character.
pub fn split_segments(hl7_string: String) -> (r: Vec<String>)
    ensures
        r.deep_view() == spec_split(hl7_string@, '\n'),
{
    split_chars(hl7_string.as_str(), '\n')
}

} // verus!
