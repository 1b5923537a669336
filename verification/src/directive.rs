//! The `# resolve-type-names: true|false` magic comment.
//!
//! Ruby RBS recognises the comment with the anchored regex
//! `\A#\s*resolve-type-names\s*:\s+(true|false)$`. Two readers exist:
//! [`match_magic_comment`] reports where each piece of the comment sits
//! (character offsets, Ruby's `\s` class), and
//! [`is_type_name_resolution_disabled`] answers whether the first line
//! switches type-name resolution off (spaces and tabs only).
use vstd::prelude::*;

use crate::text::chars_of;

verus! {

/// Ruby's `\s`: space, tab, LF, CR, vertical tab, form feed.
pub open spec fn is_ruby_space(c: char) -> bool {
    c == ' ' || c == '\t' || c == '\n' || c == '\r' || c == '\x0b' || c == '\x0c'
}

/// A space or a tab.
pub open spec fn is_blank(c: char) -> bool {
    c == ' ' || c == '\t'
}

/// Whitespace of the chosen class: Ruby's `\s` when `wide`, else blanks.
pub open spec fn is_space(c: char, wide: bool) -> bool {
    if wide {
        is_ruby_space(c)
    } else {
        is_blank(c)
    }
}

/// The index of the first non-space character of `s` at or after `i`.
pub open spec fn skip_spaces(s: Seq<char>, i: int, wide: bool) -> int
    decreases s.len() - i,
{
    if 0 <= i < s.len() && is_space(s[i], wide) {
        skip_spaces(s, i + 1, wide)
    } else {
        i
    }
}

/// `p` occurs in `s` starting at index `i`.
pub open spec fn occurs_at(s: Seq<char>, i: int, p: Seq<char>) -> bool {
    0 <= i && i + p.len() <= s.len() && s.subrange(i, i + p.len()) == p
}

/// Index `i` of `s` is the end of a line (or of the text).
pub open spec fn line_ends_at(s: Seq<char>, i: int) -> bool {
    i == s.len() || (0 <= i < s.len() && (s[i] == '\n' || s[i] == '\r'))
}

/// Character offsets of a matched magic comment.
#[derive(Debug, Clone, Copy, PartialEq, Eq, Structural)]
pub struct MagicMatch {
    pub start: usize,
    pub end: usize,
    pub keyword_start: usize,
    pub keyword_end: usize,
    pub colon_start: usize,
    pub colon_end: usize,
    pub value_start: usize,
    pub value_end: usize,
    pub value_true: bool,
}

/// The magic comment's pieces, as `match_magic_comment` reports them:
/// the comment must start the text; the keyword runs from `k`, the colon
/// stands at `p`, the value starts at `v` (after at least one space).
pub open spec fn magic_match(c: Seq<char>) -> Option<MagicMatch> {
    let kw = "resolve-type-names"@;
    if c.len() == 0 || c[0] != '#' {
        None
    } else {
        let k = skip_spaces(c, 1, true);
        let p = skip_spaces(c, k + kw.len(), true);
        let v = skip_spaces(c, p + 1, true);
        if !occurs_at(c, k, kw) || !(p < c.len() && c[p] == ':') || v == p + 1 {
            None
        } else {
            let (word, truth) = if occurs_at(c, v, "true"@) {
                ("true"@, true)
            } else {
                ("false"@, false)
            };
            if occurs_at(c, v, word) && line_ends_at(c, v + word.len()) {
                Some(
                    MagicMatch {
                        start: k as usize,
                        end: (v + word.len()) as usize,
                        keyword_start: k as usize,
                        keyword_end: (k + kw.len()) as usize,
                        colon_start: p as usize,
                        colon_end: (p + 1) as usize,
                        value_start: v as usize,
                        value_end: (v + word.len()) as usize,
                        value_true: truth,
                    },
                )
            } else {
                None
            }
        }
    }
}

/// The index of the first `'\n'` of `c`, or its length.
pub open spec fn newline_index(c: Seq<char>, i: int) -> int
    decreases c.len() - i,
{
    if i < 0 || i >= c.len() {
        c.len() as int
    } else if c[i] == '\n' {
        i
    } else {
        newline_index(c, i + 1)
    }
}

/// The first line of `c` as `str::lines` yields it: up to the first
/// `'\n'`, without the `'\r'` of a `"\r\n"` ending.
pub open spec fn first_line(c: Seq<char>) -> Seq<char> {
    let n = newline_index(c, 0);
    if n < c.len() && n > 0 && c[n - 1] == '\r' {
        c.take(n - 1)
    } else {
        c.take(n)
    }
}

/// The first line reads `# resolve-type-names: false` (blanks allowed
/// around the keyword and colon, at least one blank after the colon,
/// nothing after the value).
pub open spec fn resolution_disabled(c: Seq<char>) -> bool {
    let l = first_line(c);
    let kw = "resolve-type-names"@;
    let k = skip_spaces(l, 1, false);
    let p = skip_spaces(l, k + kw.len(), false);
    let v = skip_spaces(l, p + 1, false);
    &&& l.len() > 0
    &&& l[0] == '#'
    &&& occurs_at(l, k, kw)
    &&& p < l.len()
    &&& l[p] == ':'
    &&& v > p + 1
    &&& l.subrange(v, l.len() as int) == "false"@
}

/// Whether `c` is a space of the chosen class.
fn space_char(c: char, wide: bool) -> (r: bool)
    ensures
        r == is_space(c, wide),
{
    if wide {
        c == ' ' || c == '\t' || c == '\n' || c == '\r' || c == '\x0b' || c == '\x0c'
    } else {
        c == ' ' || c == '\t'
    }
}

/// The first index at or after `i` whose character is not a space of the
/// chosen class.
fn skip_space_chars(s: &Vec<char>, i: usize, wide: bool) -> (r: usize)
    requires
        i <= s@.len(),
    ensures
        r == skip_spaces(s@, i as int, wide),
        i <= r <= s@.len(),
{
    let mut j = i;
    while j < s.len() && space_char(s[j], wide)
        invariant
            i <= j <= s@.len(),
            skip_spaces(s@, j as int, wide) == skip_spaces(s@, i as int, wide),
        decreases s@.len() - j,
    {
        j = j + 1;
    }
    j
}

/// Whether `p` occurs in `s` at index `i`.
fn occurs_at_index(s: &Vec<char>, i: usize, p: &Vec<char>) -> (r: bool)
    ensures
        r == occurs_at(s@, i as int, p@),
{
    if i > s.len() || p.len() > s.len() - i {
        return false;
    }
    let sl = s.len();
    let mut j: usize = 0;
    while j < p.len()
        invariant
            sl == s@.len(),
            i + p@.len() <= s@.len(),
            j <= p@.len(),
            forall|t: int| 0 <= t < j ==> s@[i + t] == p@[t],
        decreases p@.len() - j,
    {
        if s[i + j] != p[j] {
            proof {
                assert(s@.subrange(i as int, i + p@.len())[j as int] != p@[j as int]);
            }
            return false;
        }
        j = j + 1;
    }
    proof {
        assert(s@.subrange(i as int, i + p@.len()) =~= p@);
    }
    true
}

/// Locate a `# resolve-type-names: true|false` magic comment at the very
/// start of `content`: `None` when the text does not begin with one.
/// Offsets count characters.
pub fn match_magic_comment(content: &str) -> (r: Option<MagicMatch>)
    ensures
        r == magic_match(content@),
{
    let c = chars_of(content);
    let kw = chars_of("resolve-type-names");
    let t = chars_of("true");
    let f = chars_of("false");
    if c.len() == 0 || c[0] != '#' {
        return None;
    }
    let k = skip_space_chars(&c, 1, true);
    if !occurs_at_index(&c, k, &kw) {
        return None;
    }
    let p = skip_space_chars(&c, k + kw.len(), true);
    if !(p < c.len() && c[p] == ':') {
        return None;
    }
    let v = skip_space_chars(&c, p + 1, true);
    if v == p + 1 {
        return None;
    }
    let (truth, len) = if occurs_at_index(&c, v, &t) {
        (true, t.len())
    } else if occurs_at_index(&c, v, &f) {
        (false, f.len())
    } else {
        return None;
    };
    let e = v + len;
    if !(e == c.len() || c[e] == '\n' || c[e] == '\r') {
        return None;
    }
    Some(
        MagicMatch {
            start: k,
            end: e,
            keyword_start: k,
            keyword_end: k + kw.len(),
            colon_start: p,
            colon_end: p + 1,
            value_start: v,
            value_end: e,
            value_true: truth,
        },
    )
}

/// Whether `content`'s first line is `# resolve-type-names: false`,
/// which switches type-name resolution off for the source.
pub fn is_type_name_resolution_disabled(content: &str) -> (b: bool)
    ensures
        b == resolution_disabled(content@),
{
    let c = chars_of(content);
    let kw = chars_of("resolve-type-names");
    let f = chars_of("false");
    let mut n: usize = 0;
    while n < c.len() && c[n] != '\n'
        invariant
            n <= c@.len(),
            newline_index(c@, n as int) == newline_index(c@, 0),
        decreases c@.len() - n,
    {
        n = n + 1;
    }
    let cut = if n < c.len() && n > 0 && c[n - 1] == '\r' {
        n - 1
    } else {
        n
    };
    let mut l: Vec<char> = Vec::new();
    let mut i: usize = 0;
    while i < cut
        invariant
            cut <= c@.len(),
            i <= cut,
            l@ == c@.take(i as int),
        decreases cut - i,
    {
        l.push(c[i]);
        proof {
            assert(c@.take(i + 1) =~= c@.take(i as int).push(c@[i as int]));
        }
        i = i + 1;
    }
    proof {
        assert(l@ == first_line(content@));
    }
    if l.len() == 0 || l[0] != '#' {
        return false;
    }
    let k = skip_space_chars(&l, 1, false);
    if !occurs_at_index(&l, k, &kw) {
        return false;
    }
    let p = skip_space_chars(&l, k + kw.len(), false);
    if !(p < l.len() && l[p] == ':') {
        return false;
    }
    let v = skip_space_chars(&l, p + 1, false);
    if v == p + 1 {
        return false;
    }
    let b = l.len() - v == f.len() && occurs_at_index(&l, v, &f);
    proof {
        if l.len() - v == f.len() {
            assert(occurs_at(l@, v as int, f@) == (l@.subrange(v as int, l@.len() as int) == f@));
        } else {
            assert(l@.subrange(v as int, l@.len() as int).len() != f@.len());
        }
    }
    b
}

} // verus!
