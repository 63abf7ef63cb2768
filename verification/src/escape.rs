//! The reserved-character escape codec.
//!
//! A handler is configured with five separator characters. `escape` replaces
//! each reserved character with a delimited mnemonic sequence; `unescape`
//! scans for the escape character and substitutes recognized sequence tokens
//! back, passing unrecognized ones through verbatim. Both directions are
//! total. Sequence tokens are runs of ASCII letters and digits.

use vstd::prelude::*;

use crate::errors::{Hl7Error, Hl7ErrorV};
use crate::text::{push_char, spec_join, spec_split, split_chars};

verus! {

/// The escape codec configuration: the five reserved characters.
#[derive(Debug, Clone, Copy)]
pub struct Hl7EscapeHandler {
    pub field_separator: char,
    pub component_separator: char,
    pub repetition_separator: char,
    pub escape_character: char,
    pub subcomponent_separator: char,
}

/// Whether `c` can stand inside an escape sequence token: the ASCII letters
/// and digits.
pub open spec fn is_seq_char(c: char) -> bool {
    ('0' <= c && c <= '9') || ('A' <= c && c <= 'Z') || ('a' <= c && c <= 'z')
}

/// The escaped form of the single character `c` under the handler `h`.
pub open spec fn esc_one(h: Hl7EscapeHandler, c: char) -> Seq<char> {
    let e = h.escape_character;
    if c == h.field_separator {
        seq![e, 'F', e]
    } else if c == h.component_separator {
        seq![e, 'S', e]
    } else if c == h.repetition_separator {
        seq![e, 'R', e]
    } else if c == h.subcomponent_separator {
        seq![e, 'T', e]
    } else if c == e {
        seq![e, e]
    } else if c == '\n' {
        seq![e, 'X', '0', 'A', e]
    } else if c == '\r' {
        seq![e, 'X', '0', 'D', e]
    } else if c == ' ' {
        seq![e, 'X', '2', '0', e]
    } else if c == '\t' {
        seq![e, 'X', '0', '9', e]
    } else {
        seq![c]
    }
}

/// The escaped form of the text `s` under the handler `h`.
pub open spec fn spec_escape(h: Hl7EscapeHandler, s: Seq<char>) -> Seq<char>
    decreases s.len(),
{
    if s.len() == 0 {
        Seq::empty()
    } else {
        esc_one(h, s[0]) + spec_escape(h, s.drop_first())
    }
}

/// The literal replacement for a recognized sequence token, if any.
pub open spec fn spec_sequence_value(h: Hl7EscapeHandler, tok: Seq<char>) -> Option<Seq<char>> {
    if tok == seq!['F'] {
        Some(seq![h.field_separator])
    } else if tok == seq!['S'] {
        Some(seq![h.component_separator])
    } else if tok == seq!['R'] {
        Some(seq![h.repetition_separator])
    } else if tok == seq!['E'] {
        Some(seq![h.escape_character])
    } else if tok == seq!['T'] {
        Some(seq![h.subcomponent_separator])
    } else if tok == seq!['X', '0', 'A'] {
        Some(seq!['\n'])
    } else if tok == seq!['X', '0', 'D'] {
        Some(seq!['\r'])
    } else if tok == seq!['X', '0', 'D', '0', 'A'] {
        Some(seq!['\r', '\n'])
    } else if tok == seq!['X', '2', '0'] {
        Some(seq![' '])
    } else if tok == seq!['X', '0', '9'] {
        Some(seq!['\t'])
    } else {
        None
    }
}

/// The first index at or after `j` that cannot stand inside a sequence
/// token, or `s.len()` when the token run reaches the end.
pub open spec fn token_end(s: Seq<char>, j: int) -> int
    decreases s.len() - j when 0 <= j <= s.len()
{
    if j >= s.len() {
        j
    } else if is_seq_char(s[j]) {
        token_end(s, j + 1)
    } else {
        j
    }
}

pub proof fn lemma_token_end_bounds(s: Seq<char>, j: int)
    requires
        0 <= j <= s.len(),
    ensures
        j <= token_end(s, j) <= s.len(),
        token_end(s, j) < s.len() ==> !is_seq_char(s[token_end(s, j)]),
        forall|k: int| j <= k < token_end(s, j) ==> is_seq_char(s[k]),
    decreases s.len() - j,
{
    if j < s.len() && is_seq_char(s[j]) {
        lemma_token_end_bounds(s, j + 1);
    }
}

/// The unescaped form of `s` from index `i` on: emits plain characters as
/// they stand; on the escape character, a doubled escape character yields one
/// literal escape character, a recognized token yields its replacement, an
/// unrecognized token is passed through verbatim, and a trailing escape
/// character is emitted literally.
pub open spec fn spec_unescape_from(h: Hl7EscapeHandler, s: Seq<char>, i: int) -> Seq<char>
    decreases s.len() - i when 0 <= i <= s.len() via spec_unescape_from_decreases
{
    let e = h.escape_character;
    if i >= s.len() {
        Seq::empty()
    } else if s[i] != e {
        seq![s[i]] + spec_unescape_from(h, s, i + 1)
    } else if i + 1 >= s.len() {
        seq![e]
    } else if s[i + 1] == e {
        seq![e] + spec_unescape_from(h, s, i + 2)
    } else {
        let te = token_end(s, i + 2);
        let tok = s.subrange(i + 1, te);
        let next = if te < s.len() && s[te] == e {
            te + 1
        } else {
            te
        };
        (match spec_sequence_value(h, tok) {
            Some(rep) => rep,
            None => seq![e] + tok,
        }) + spec_unescape_from(h, s, next)
    }
}

#[via_fn]
proof fn spec_unescape_from_decreases(h: Hl7EscapeHandler, s: Seq<char>, i: int) {
    if 0 <= i && i + 1 < s.len() {
        lemma_token_end_bounds(s, i + 2);
    }
}

/// The unescaped form of the whole text `s` under the handler `h`.
pub open spec fn spec_unescape(h: Hl7EscapeHandler, s: Seq<char>) -> Seq<char> {
    spec_unescape_from(h, s, 0)
}

fn is_token_char(c: char) -> (r: bool)
    ensures
        r == is_seq_char(c),
{
    let u = c as u32;
    (48 <= u && u <= 57) || (65 <= u && u <= 90) || (97 <= u && u <= 122)
}

impl Hl7EscapeHandler {
    pub fn new(
        field_separator: char,
        component_separator: char,
        repetition_separator: char,
        escape_character: char,
        subcomponent_separator: char,
    ) -> (r: Self)
        ensures
            r.field_separator == field_separator,
            r.component_separator == component_separator,
            r.repetition_separator == repetition_separator,
            r.escape_character == escape_character,
            r.subcomponent_separator == subcomponent_separator,
    {
        Hl7EscapeHandler {
            field_separator,
            component_separator,
            repetition_separator,
            escape_character,
            subcomponent_separator,
        }
    }

    /// Builds a handler from the 4-character encoding-characters string:
    /// component, repetition, escape and subcomponent separator, in that
    /// order. The field separator is fixed by convention. A string of any
    /// other length is rejected.
    pub fn from_msh_field(field_1: &str) -> (r: Result<Self, Hl7Error>)
        ensures
            field_1@.len() == 4 ==> (r matches Ok(h) && h.field_separator == '|'
                && h.component_separator == field_1@[0] && h.repetition_separator == field_1@[1]
                && h.escape_character == field_1@[2] && h.subcomponent_separator == field_1@[3]),
            field_1@.len() != 4 ==> (r matches Err(e) && e@ == (Hl7ErrorV::InvalidFieldSeparators {
                separators: field_1@,
            })),
    {
        if field_1.unicode_len() != 4 {
            return Err(Hl7Error::InvalidFieldSeparators { separators: field_1.to_owned() });
        }
        Ok(
            Self::new(
                '|',
                field_1.get_char(0),
                field_1.get_char(1),
                field_1.get_char(2),
                field_1.get_char(3),
            ),
        )
    }

    pub fn get_component_separator(&self) -> (r: char)
        ensures
            r == self.component_separator,
    {
        self.component_separator
    }

    pub fn get_repetition_separator(&self) -> (r: char)
        ensures
            r == self.repetition_separator,
    {
        self.repetition_separator
    }

    /// Replaces each reserved character of `text` with its escape sequence.
    /// Total: all other characters pass through unchanged.
    pub fn escape(&self, text: &str) -> (res: String)
        ensures
            res@ == spec_escape(*self, text@),
    {
        let e = self.escape_character;
        let n = text.unicode_len();
        let mut res = String::new();
        let mut i: usize = 0;
        proof {
            assert(text@.take(0int) =~= Seq::<char>::empty());
        }
        while i < n
            invariant
                n == text@.len(),
                i <= n,
                e == self.escape_character,
                res@ == spec_escape(*self, text@.take(i as int)),
            decreases n - i,
        {
            let ghost r0 = res@;
            let c = text.get_char(i);
            if c == self.field_separator {
                push_char(&mut res, e);
                push_char(&mut res, 'F');
                push_char(&mut res, e);
            } else if c == self.component_separator {
                push_char(&mut res, e);
                push_char(&mut res, 'S');
                push_char(&mut res, e);
            } else if c == self.repetition_separator {
                push_char(&mut res, e);
                push_char(&mut res, 'R');
                push_char(&mut res, e);
            } else if c == self.subcomponent_separator {
                push_char(&mut res, e);
                push_char(&mut res, 'T');
                push_char(&mut res, e);
            } else if c == e {
                push_char(&mut res, e);
                push_char(&mut res, e);
            } else if c == '\n' {
                push_char(&mut res, e);
                push_char(&mut res, 'X');
                push_char(&mut res, '0');
                push_char(&mut res, 'A');
                push_char(&mut res, e);
            } else if c == '\r' {
                push_char(&mut res, e);
                push_char(&mut res, 'X');
                push_char(&mut res, '0');
                push_char(&mut res, 'D');
                push_char(&mut res, e);
            } else if c == ' ' {
                push_char(&mut res, e);
                push_char(&mut res, 'X');
                push_char(&mut res, '2');
                push_char(&mut res, '0');
                push_char(&mut res, e);
            } else if c == '\t' {
                push_char(&mut res, e);
                push_char(&mut res, 'X');
                push_char(&mut res, '0');
                push_char(&mut res, '9');
                push_char(&mut res, e);
            } else {
                push_char(&mut res, c);
            }
            proof {
                assert(res@ =~= r0 + esc_one(*self, text@[i as int]));
                lemma_spec_escape_snoc(*self, text@, i as int);
            }
            i += 1;
        }
        proof {
            assert(text@.take(n as int) =~= text@);
        }
        res
    }

    /// Scans `text` and substitutes recognized escape sequences back to their
    /// literal characters. Total: unrecognized sequences and a trailing
    /// escape character pass through verbatim.
    #[verifier::rlimit(80)]
    pub fn unescape(&self, text: &str) -> (res: String)
        ensures
            res@ == spec_unescape(*self, text@),
    {
        let e = self.escape_character;
        let n = text.unicode_len();
        let mut res = String::new();
        let mut i: usize = 0;
        let ghost s = text@;
        while i < n
            invariant
                n == s.len(),
                s == text@,
                i <= n,
                e == self.escape_character,
                spec_unescape_from(*self, s, 0) == res@ + spec_unescape_from(*self, s, i as int),
            decreases n - i,
        {
            let ghost r0 = res@;
            let c = text.get_char(i);
            if c != e {
                push_char(&mut res, c);
                proof {
                    assert(r0 + spec_unescape_from(*self, s, i as int) =~= res@
                        + spec_unescape_from(*self, s, i + 1));
                }
                i += 1;
            } else if i + 1 == n {
                push_char(&mut res, e);
                proof {
                    assert(spec_unescape_from(*self, s, i as int) == seq![e]);
                    assert(r0 + spec_unescape_from(*self, s, i as int) =~= res@
                        + spec_unescape_from(*self, s, n as int));
                }
                i = n;
            } else {
                let c2 = text.get_char(i + 1);
                if c2 == e {
                    push_char(&mut res, e);
                    proof {
                        assert(r0 + spec_unescape_from(*self, s, i as int) =~= res@
                            + spec_unescape_from(*self, s, i + 2));
                    }
                    i += 2;
                } else {
                    let mut j = i + 2;
                    while j < n && is_token_char(text.get_char(j))
                        invariant
                            n == s.len(),
                            s == text@,
                            i + 2 <= j <= n,
                            token_end(s, i + 2) == token_end(s, j as int),
                        decreases n - j,
                    {
                        proof {
                            assert(is_seq_char(s[j as int]));
                        }
                        j += 1;
                    }
                    proof {
                        assert(token_end(s, j as int) == j);
                        assert(token_end(s, i + 2) == j);
                    }
                    let ghost tok = s.subrange(i + 1, j as int);
                    proof {
                        lemma_table(*self);
                        assert(tok.len() == j - i - 1);
                        assert(tok[0] == s[i + 1] && s[i + 1] == c2);
                    }
                    let tlen = j - i - 1;
                    if tlen == 1 && c2 == 'F' {
                        push_char(&mut res, self.field_separator);
                        proof {
                            assert(tok =~= seq!['F']);
                        }
                    } else if tlen == 1 && c2 == 'S' {
                        push_char(&mut res, self.component_separator);
                        proof {
                            assert(tok =~= seq!['S']);
                        }
                    } else if tlen == 1 && c2 == 'R' {
                        push_char(&mut res, self.repetition_separator);
                        proof {
                            assert(tok =~= seq!['R']);
                        }
                    } else if tlen == 1 && c2 == 'E' {
                        push_char(&mut res, self.escape_character);
                        proof {
                            assert(tok =~= seq!['E']);
                        }
                    } else if tlen == 1 && c2 == 'T' {
                        push_char(&mut res, self.subcomponent_separator);
                        proof {
                            assert(tok =~= seq!['T']);
                        }
                    } else if tlen == 3 || tlen == 5 {
                        let t1 = text.get_char(i + 2);
                        let t2 = text.get_char(i + 3);
                        if tlen == 3 && c2 == 'X' && t1 == '0' && t2 == 'A' {
                            push_char(&mut res, '\n');
                            proof {
                                assert(tok =~= seq!['X', '0', 'A']);
                            }
                        } else if tlen == 3 && c2 == 'X' && t1 == '0' && t2 == 'D' {
                            push_char(&mut res, '\r');
                            proof {
                                assert(tok =~= seq!['X', '0', 'D']);
                            }
                        } else if tlen == 3 && c2 == 'X' && t1 == '2' && t2 == '0' {
                            push_char(&mut res, ' ');
                            proof {
                                assert(tok =~= seq!['X', '2', '0']);
                            }
                        } else if tlen == 3 && c2 == 'X' && t1 == '0' && t2 == '9' {
                            push_char(&mut res, '\t');
                            proof {
                                assert(tok =~= seq!['X', '0', '9']);
                            }
                        } else if tlen == 5 && c2 == 'X' && t1 == '0' && t2 == 'D' && text.get_char(
                            i + 4,
                        ) == '0' && text.get_char(i + 5) == 'A' {
                            push_char(&mut res, '\r');
                            push_char(&mut res, '\n');
                            proof {
                                assert(tok =~= seq!['X', '0', 'D', '0', 'A']);
                            }
                        } else {
                            self.push_verbatim(&mut res, text, i, j);
                            proof {
                                assert(tok[1] == s[i + 2] && tok[2] == s[i + 3]);
                                if tlen == 5 {
                                    assert(tok[3] == s[i + 4] && tok[4] == s[i + 5]);
                                }
                                lemma_not_in_table(*self, tok);
                            }
                        }
                    } else {
                        self.push_verbatim(&mut res, text, i, j);
                        proof {
                            lemma_not_in_table(*self, tok);
                        }
                    }
                    let next = if j < n && text.get_char(j) == e {
                        j + 1
                    } else {
                        j
                    };
                    proof {
                        let emitted = match spec_sequence_value(*self, tok) {
                            Some(rep) => rep,
                            None => seq![e] + tok,
                        };
                        assert(spec_unescape_from(*self, s, i as int) == emitted
                            + spec_unescape_from(*self, s, next as int));
                        assert(res@ =~= r0 + emitted);
                        assert(r0 + spec_unescape_from(*self, s, i as int) =~= res@
                            + spec_unescape_from(*self, s, next as int));
                    }
                    i = next;
                }
            }
        }
        proof {
            assert(spec_unescape_from(*self, s, n as int) =~= Seq::<char>::empty());
            assert(res@ =~= res@ + spec_unescape_from(*self, s, n as int));
        }
        res
    }

    /// Emits an unrecognized escape sequence verbatim: the escape character
    /// followed by the token characters `text[from + 1 .. to]`.
    fn push_verbatim(&self, res: &mut String, text: &str, from: usize, to: usize)
        requires
            from < to <= old(res)@.len() + text@.len(),
            to <= text@.len(),
            from + 1 <= to,
        ensures
            final(res)@ == old(res)@ + seq![self.escape_character] + text@.subrange(
                from + 1,
                to as int,
            ),
    {
        push_char(res, self.escape_character);
        let mut k = from + 1;
        proof {
            assert(res@ =~= old(res)@ + seq![self.escape_character] + text@.subrange(
                from + 1,
                from + 1,
            ));
        }
        while k < to
            invariant
                from + 1 <= k <= to <= text@.len(),
                res@ == old(res)@ + seq![self.escape_character] + text@.subrange(
                    from + 1,
                    k as int,
                ),
            decreases to - k,
        {
            let ghost r1 = res@;
            push_char(res, text.get_char(k));
            proof {
                assert(res@ =~= old(res)@ + seq![self.escape_character] + text@.subrange(
                    from + 1,
                    k + 1,
                ));
            }
            k += 1;
        }
    }

    /// Unescapes `field_text` and splits the result on the component
    /// separator.
    pub fn parse_field_with_escaping(&self, field_text: &str) -> (r: Vec<String>)
        ensures
            r.deep_view() == spec_split(
                spec_unescape(*self, field_text@),
                self.component_separator,
            ),
    {
        let unescaped = self.unescape(field_text);
        split_chars(unescaped.as_str(), self.component_separator)
    }

    /// Escapes each component and joins them with the component separator.
    pub fn format_field_with_escaping(&self, components: &[String]) -> (r: String)
        ensures
            r@ == spec_join(
                components.deep_view().map_values(|cs: Seq<char>| spec_escape(*self, cs)),
                self.component_separator,
            ),
    {
        let mut escaped: Vec<String> = Vec::new();
        let mut i: usize = 0;
        while i < components.len()
            invariant
                i <= components@.len(),
                escaped@.len() == i,
                forall|k: int|
                    0 <= k < i ==> (#[trigger] escaped@[k])@ == spec_escape(
                        *self,
                        components@[k]@,
                    ),
            decreases components@.len() - i,
        {
            let piece = self.escape(components[i].as_str());
            escaped.push(piece);
            i += 1;
        }
        proof {
            let dv = components.deep_view().map_values(|cs: Seq<char>| spec_escape(*self, cs));
            assert forall|k: int| 0 <= k < escaped@.len() implies escaped.deep_view()[k] == dv[k]
            by {
                assert(escaped.deep_view()[k] == escaped@[k]@);
                assert(components.deep_view()[k] == components@[k]@);
            }
            assert(escaped.deep_view() =~= dv);
        }
        join_result(&escaped, self.component_separator)
    }
}

fn join_result(v: &Vec<String>, c: char) -> (r: String)
    ensures
        r@ == spec_join(v.deep_view(), c),
{
    crate::text::join_chars(v, c)
}

impl Default for Hl7EscapeHandler {
    /// The default configuration: `|`, `^`, `~`, `\`, `&`.
    fn default() -> (r: Self)
        ensures
            r == spec_default_handler(),
    {
        Hl7EscapeHandler::new('|', '^', '~', '\\', '&')
    }
}

/// The default handler configuration.
pub open spec fn spec_default_handler() -> Hl7EscapeHandler {
    (Hl7EscapeHandler {
        field_separator: '|',
        component_separator: '^',
        repetition_separator: '~',
        escape_character: '\\',
        subcomponent_separator: '&',
    })
}

/// Builds the default escape handler.
pub fn create_default_escape_handler() -> (r: Hl7EscapeHandler)
    ensures
        r == spec_default_handler(),
{
    Hl7EscapeHandler::default()
}

proof fn lemma_spec_escape_app(h: Hl7EscapeHandler, a: Seq<char>, b: Seq<char>)
    ensures
        spec_escape(h, a + b) == spec_escape(h, a) + spec_escape(h, b),
    decreases a.len(),
{
    if a.len() == 0 {
        assert(a + b =~= b);
        assert(spec_escape(h, a) + spec_escape(h, b) =~= spec_escape(h, b));
    } else {
        lemma_spec_escape_app(h, a.drop_first(), b);
        assert((a + b).drop_first() =~= a.drop_first() + b);
        assert((a + b)[0] == a[0]);
        assert(spec_escape(h, a) + spec_escape(h, b) =~= esc_one(h, a[0]) + (spec_escape(
            h,
            a.drop_first(),
        ) + spec_escape(h, b)));
    }
}

proof fn lemma_spec_escape_snoc(h: Hl7EscapeHandler, s: Seq<char>, i: int)
    requires
        0 <= i < s.len(),
    ensures
        spec_escape(h, s.take(i + 1)) == spec_escape(h, s.take(i)) + esc_one(h, s[i]),
{
    assert(s.take(i + 1) =~= s.take(i) + seq![s[i]]);
    lemma_spec_escape_app(h, s.take(i), seq![s[i]]);
    assert(seq![s[i]].drop_first() =~= Seq::<char>::empty());
    assert(spec_escape(h, Seq::<char>::empty()) == Seq::<char>::empty());
    assert(spec_escape(h, seq![s[i]]) =~= esc_one(h, s[i]));
}

/// Evaluates the sequence table on each of its ten tokens, settling the
/// disequalities between the token literals along the way.
proof fn lemma_table(h: Hl7EscapeHandler)
    ensures
        spec_sequence_value(h, seq!['F']) == Some(seq![h.field_separator]),
        spec_sequence_value(h, seq!['S']) == Some(seq![h.component_separator]),
        spec_sequence_value(h, seq!['R']) == Some(seq![h.repetition_separator]),
        spec_sequence_value(h, seq!['E']) == Some(seq![h.escape_character]),
        spec_sequence_value(h, seq!['T']) == Some(seq![h.subcomponent_separator]),
        spec_sequence_value(h, seq!['X', '0', 'A']) == Some(seq!['\n']),
        spec_sequence_value(h, seq!['X', '0', 'D']) == Some(seq!['\r']),
        spec_sequence_value(h, seq!['X', '0', 'D', '0', 'A']) == Some(seq!['\r', '\n']),
        spec_sequence_value(h, seq!['X', '2', '0']) == Some(seq![' ']),
        spec_sequence_value(h, seq!['X', '0', '9']) == Some(seq!['\t']),
{
    assert(seq!['F'].len() == 1 && seq!['S'].len() == 1 && seq!['R'].len() == 1 && seq![
        'E',
    ].len() == 1 && seq!['T'].len() == 1);
    assert(seq!['X', '0', 'A'].len() == 3 && seq!['X', '0', 'D'].len() == 3 && seq![
        'X',
        '2',
        '0',
    ].len() == 3 && seq!['X', '0', '9'].len() == 3);
    assert(seq!['X', '0', 'D', '0', 'A'].len() == 5);
    assert(seq!['F'][0] == 'F' && seq!['S'][0] == 'S' && seq!['R'][0] == 'R' && seq!['E'][0] == 'E'
        && seq!['T'][0] == 'T');
    assert(seq!['X', '0', 'A'][2] == 'A' && seq!['X', '0', 'D'][2] == 'D' && seq!['X', '2', '0'][1]
        == '2' && seq!['X', '0', '9'][2] == '9' && seq!['X', '0', 'D'][1] == '0');
}

proof fn lemma_not_in_table(h: Hl7EscapeHandler, tok: Seq<char>)
    requires
        !(tok =~= seq!['F']),
        !(tok =~= seq!['S']),
        !(tok =~= seq!['R']),
        !(tok =~= seq!['E']),
        !(tok =~= seq!['T']),
        !(tok =~= seq!['X', '0', 'A']),
        !(tok =~= seq!['X', '0', 'D']),
        !(tok =~= seq!['X', '0', 'D', '0', 'A']),
        !(tok =~= seq!['X', '2', '0']),
        !(tok =~= seq!['X', '0', '9']),
    ensures
        spec_sequence_value(h, tok) is None,
{
}

proof fn lemma_token_end_shift(a: Seq<char>, b: Seq<char>, j: int)
    requires
        0 <= j <= b.len(),
    ensures
        token_end(a + b, a.len() + j) == a.len() + token_end(b, j),
    decreases b.len() - j,
{
    if j < b.len() {
        assert((a + b)[a.len() + j] == b[j]);
        if is_seq_char(b[j]) {
            lemma_token_end_shift(a, b, j + 1);
        }
    }
}

pub proof fn lemma_unescape_from_shift(h: Hl7EscapeHandler, a: Seq<char>, b: Seq<char>, j: int)
    requires
        0 <= j <= b.len(),
    ensures
        spec_unescape_from(h, a + b, a.len() + j) == spec_unescape_from(h, b, j),
    decreases b.len() - j,
{
    let s = a + b;
    let i = a.len() + j;
    let e = h.escape_character;
    if j >= b.len() {
    } else {
        assert(s[i] == b[j]);
        if b[j] != e {
            lemma_unescape_from_shift(h, a, b, j + 1);
        } else if j + 1 >= b.len() {
        } else {
            assert(s[i + 1] == b[j + 1]);
            if b[j + 1] == e {
                lemma_unescape_from_shift(h, a, b, j + 2);
            } else {
                lemma_token_end_bounds(b, j + 2);
                lemma_token_end_shift(a, b, j + 2);
                let te_b = token_end(b, j + 2);
                assert(token_end(s, i + 2) == a.len() + te_b);
                assert(s.subrange(i + 1, a.len() + te_b) =~= b.subrange(j + 1, te_b));
                if te_b < b.len() {
                    assert(s[a.len() + te_b] == b[te_b]);
                }
                let next_b = if te_b < b.len() && b[te_b] == e {
                    te_b + 1
                } else {
                    te_b
                };
                lemma_unescape_from_shift(h, a, b, next_b);
            }
        }
    }
}

/// Scanning `[escape, m, escape]` prefixed to any tail emits the table value
/// of the one-character token `m` and goes on with the tail.
proof fn lemma_unit_token3(h: Hl7EscapeHandler, c: char, m: char, t: Seq<char>)
    requires
        !is_seq_char(h.escape_character),
        is_seq_char(m),
        esc_one(h, c) == seq![h.escape_character, m, h.escape_character],
        spec_sequence_value(h, seq![m]) == Some(seq![c]),
    ensures
        spec_unescape_from(h, esc_one(h, c) + t, 0) == seq![c] + spec_unescape_from(h, t, 0),
{
    let e = h.escape_character;
    let u = esc_one(h, c);
    let s = u + t;
    assert(u.len() == 3);
    assert(s.len() == 3 + t.len());
    assert(s[0] == e && s[1] == m && s[2] == e);
    assert(m != e);
    assert(token_end(s, 3) == 3 || is_seq_char(s[3]) || s.len() == 3);
    assert(!is_seq_char(s[2]));
    assert(token_end(s, 2) == 2);
    assert(s.subrange(1, 2) =~= seq![m]);
    assert(spec_unescape_from(h, s, 0) == seq![c] + spec_unescape_from(h, s, 3));
    lemma_unescape_from_shift(h, u, t, 0);
}

/// Scanning `[escape, m1, m2, m3, escape]` prefixed to any tail emits the
/// table value of the token `m1 m2 m3` and goes on with the tail.
proof fn lemma_unit_token5(h: Hl7EscapeHandler, c: char, m1: char, m2: char, m3: char, t: Seq<
    char,
>)
    requires
        !is_seq_char(h.escape_character),
        is_seq_char(m1),
        is_seq_char(m2),
        is_seq_char(m3),
        esc_one(h, c) == seq![h.escape_character, m1, m2, m3, h.escape_character],
        spec_sequence_value(h, seq![m1, m2, m3]) == Some(seq![c]),
    ensures
        spec_unescape_from(h, esc_one(h, c) + t, 0) == seq![c] + spec_unescape_from(h, t, 0),
{
    let e = h.escape_character;
    let u = esc_one(h, c);
    let s = u + t;
    assert(u.len() == 5);
    assert(s.len() == 5 + t.len());
    assert(s[0] == e && s[1] == m1 && s[2] == m2 && s[3] == m3 && s[4] == e);
    assert(m1 != e);
    assert(!is_seq_char(s[4]));
    assert(token_end(s, 4) == 4);
    assert(token_end(s, 3) == 4);
    assert(token_end(s, 2) == 4);
    assert(s.subrange(1, 4) =~= seq![m1, m2, m3]);
    assert(spec_unescape_from(h, s, 0) == seq![c] + spec_unescape_from(h, s, 5));
    lemma_unescape_from_shift(h, u, t, 0);
}

/// One escaped character unescapes back to that character, whatever follows:
/// the escape expansion of `c` prefixed to any tail `t` scans as `c` followed
/// by the scan of `t`.
proof fn lemma_unescape_unit(h: Hl7EscapeHandler, c: char, t: Seq<char>)
    requires
        !is_seq_char(h.escape_character),
    ensures
        spec_unescape_from(h, esc_one(h, c) + t, 0) == seq![c] + spec_unescape_from(h, t, 0),
{
    let e = h.escape_character;
    let u = esc_one(h, c);
    let s = u + t;
    lemma_table(h);
    if c == h.field_separator {
        assert(u == seq![e, 'F', e]);
        lemma_unit_token3(h, c, 'F', t);
    } else if c == h.component_separator {
        assert(u == seq![e, 'S', e]);
        lemma_unit_token3(h, c, 'S', t);
    } else if c == h.repetition_separator {
        assert(u == seq![e, 'R', e]);
        lemma_unit_token3(h, c, 'R', t);
    } else if c == h.subcomponent_separator {
        assert(u == seq![e, 'T', e]);
        lemma_unit_token3(h, c, 'T', t);
    } else if c == e {
        assert(u == seq![e, e]);
        assert(s.len() == 2 + t.len());
        assert(s[0] == e && s[1] == e);
        assert(spec_unescape_from(h, s, 0) == seq![e] + spec_unescape_from(h, s, 2));
        lemma_unescape_from_shift(h, u, t, 0);
        assert(seq![c] =~= seq![e]);
    } else if c == '\n' {
        assert(u == seq![e, 'X', '0', 'A', e]);
        lemma_unit_token5(h, c, 'X', '0', 'A', t);
    } else if c == '\r' {
        assert(u == seq![e, 'X', '0', 'D', e]);
        lemma_unit_token5(h, c, 'X', '0', 'D', t);
    } else if c == ' ' {
        assert(u == seq![e, 'X', '2', '0', e]);
        lemma_unit_token5(h, c, 'X', '2', '0', t);
    } else if c == '\t' {
        assert(u == seq![e, 'X', '0', '9', e]);
        lemma_unit_token5(h, c, 'X', '0', '9', t);
    } else {
        assert(u == seq![c]);
        assert(s.len() == 1 + t.len());
        assert(s[0] == c && c != e);
        assert(spec_unescape_from(h, s, 0) == seq![c] + spec_unescape_from(h, s, 1));
        lemma_unescape_from_shift(h, u, t, 0);
    }
}

/// Scanning the escaped form of `v` prefixed to any tail emits `v` and goes
/// on with the tail.
pub proof fn lemma_unescape_escape_prefix(h: Hl7EscapeHandler, v: Seq<char>, t: Seq<char>)
    requires
        !is_seq_char(h.escape_character),
    ensures
        spec_unescape_from(h, spec_escape(h, v) + t, 0) == v + spec_unescape_from(h, t, 0),
    decreases v.len(),
{
    if v.len() == 0 {
        assert(spec_escape(h, v) + t =~= t);
        assert(v + spec_unescape_from(h, t, 0) =~= spec_unescape_from(h, t, 0));
    } else {
        lemma_unescape_escape_prefix(h, v.drop_first(), t);
        lemma_unescape_unit(h, v[0], spec_escape(h, v.drop_first()) + t);
        assert(esc_one(h, v[0]) + (spec_escape(h, v.drop_first()) + t) =~= spec_escape(h, v) + t);
        assert(seq![v[0]] + (v.drop_first() + spec_unescape_from(h, t, 0)) =~= v
            + spec_unescape_from(h, t, 0));
    }
}

/// Unescaping inverts escaping: for every text `s`, scanning the escaped form
/// of `s` yields `s` back. Holds for every handler whose escape character is
/// not itself a token character (as the default `\` is not).
pub proof fn lemma_unescape_escape(h: Hl7EscapeHandler, s: Seq<char>)
    requires
        !is_seq_char(h.escape_character),
    ensures
        spec_unescape(h, spec_escape(h, s)) == s,
    decreases s.len(),
{
    if s.len() == 0 {
        assert(spec_unescape(h, spec_escape(h, s)) =~= s);
    } else {
        lemma_unescape_escape(h, s.drop_first());
        lemma_unescape_unit(h, s[0], spec_escape(h, s.drop_first()));
        assert(seq![s[0]] + s.drop_first() =~= s);
    }
}

/// Escaping inverts unescaping on canonically escaped text: for every text
/// `t` that is the escaped form of some string, re-escaping the unescaped
/// form of `t` yields `t` back.
pub proof fn lemma_escape_unescape(h: Hl7EscapeHandler, t: Seq<char>)
    requires
        !is_seq_char(h.escape_character),
        exists|s: Seq<char>| t == spec_escape(h, s),
    ensures
        spec_escape(h, spec_unescape(h, t)) == t,
{
    let s = choose|s: Seq<char>| t == spec_escape(h, s);
    lemma_unescape_escape(h, s);
}

} // verus!
