//! The link syntax matcher: recognizes the three supported link notations —
//! Markdown-style `[description](path)`, wiki links `[[path]]` and
//! transclusions `{{path}}` — and captures, per occurrence, an optional
//! namespace prefix, the textual path, and the verbatim left and right
//! delimiter substrings so they can be reproduced unchanged.
//!
//! A path capture stops at the first `#` (anchor), `|` (description
//! separator) or closing delimiter; anchor and description text then belongs
//! to the right delimiter and must stay on one line.  Whitespace just inside
//! `[[` or `{{` is consumed into the left delimiter.  Matches are reported
//! left to right and never overlap.
use vstd::prelude::*;
use vstd::string::StrSliceExecFns;
use vstd::string::StringExecFns;

use crate::paths::{spec_is_ws, is_ws, trim_start, trim_end, trim_ws};

verus! {

/// The three recognized link notations.
#[derive(Clone, Copy, PartialEq, Eq, Structural, Debug)]
pub enum Notation {
    Markdown,
    WikiLink,
    Transclusion,
}

/// The recognized namespace markers that may precede a link path.
#[derive(Clone, Copy, PartialEq, Eq, Structural, Debug)]
pub enum LinkPrefix {
    Diary,
    File,
    Local,
}

pub open spec fn prefix_word(p: LinkPrefix) -> Seq<char> {
    match p {
        LinkPrefix::Diary => seq!['d', 'i', 'a', 'r', 'y'],
        LinkPrefix::File => seq!['f', 'i', 'l', 'e'],
        LinkPrefix::Local => seq!['l', 'o', 'c', 'a', 'l'],
    }
}

/// The textual form of a prefix inside a link: the marker followed by `:`.
pub open spec fn prefix_text(p: LinkPrefix) -> Seq<char> {
    prefix_word(p) + seq![':']
}

impl LinkPrefix {
    /// The marker as a string.
    pub fn text(&self) -> (r: String)
        ensures
            r@ == prefix_word(*self),
    {
        match self {
            LinkPrefix::Diary => {
                proof {
                    reveal_strlit("diary");
                }
                let r = String::from_str("diary");
                proof {
                    assert(r@ =~= prefix_word(LinkPrefix::Diary));
                }
                r
            },
            LinkPrefix::File => {
                proof {
                    reveal_strlit("file");
                }
                let r = String::from_str("file");
                proof {
                    assert(r@ =~= prefix_word(LinkPrefix::File));
                }
                r
            },
            LinkPrefix::Local => {
                proof {
                    reveal_strlit("local");
                }
                let r = String::from_str("local");
                proof {
                    assert(r@ =~= prefix_word(LinkPrefix::Local));
                }
                r
            },
        }
    }
}

/// One match: the positions of its parts inside the scanned text.
pub ghost struct SpecMatch {
    /// Where the match begins (first character of the left delimiter).
    pub start: int,
    /// Where the left delimiter ends; the prefix, if any, follows it.
    pub left_end: int,
    /// Where the captured path begins.
    pub path_start: int,
    /// Where the captured path ends; the right delimiter follows it.
    pub path_end: int,
    /// Where the match ends (just past the closing delimiter).
    pub end: int,
    /// The recognized namespace marker, if the path carried one.
    pub prefix: Option<LinkPrefix>,
}

pub open spec fn opener_at(t: Seq<char>, i: int, n: Notation) -> bool {
    match n {
        Notation::Markdown => 0 <= i < t.len() && t[i] == '[',
        Notation::WikiLink => 0 <= i && i + 2 <= t.len() && t[i] == '[' && t[i + 1] == '[',
        Notation::Transclusion => 0 <= i && i + 2 <= t.len() && t[i] == '{' && t[i + 1] == '{',
    }
}

pub open spec fn closer_at(t: Seq<char>, i: int, n: Notation) -> bool {
    match n {
        Notation::Markdown => 0 <= i < t.len() && t[i] == ')',
        Notation::WikiLink => 0 <= i && i + 2 <= t.len() && t[i] == ']' && t[i + 1] == ']',
        Notation::Transclusion => 0 <= i && i + 2 <= t.len() && t[i] == '}' && t[i + 1] == '}',
    }
}

pub open spec fn closer_len(n: Notation) -> int {
    match n {
        Notation::Markdown => 1,
        Notation::WikiLink => 2,
        Notation::Transclusion => 2,
    }
}

/// The end of the whitespace run starting at `i`.
pub open spec fn ws_end(t: Seq<char>, i: int) -> int
    decreases t.len() - i,
{
    if 0 <= i && i < t.len() && spec_is_ws(t[i]) {
        ws_end(t, i + 1)
    } else {
        i
    }
}

/// The first position at or past `i` that terminates a path capture: a `#`,
/// a `|`, or the closing delimiter.
pub open spec fn path_term(t: Seq<char>, i: int, n: Notation) -> Option<int>
    decreases t.len() - i,
{
    if i < 0 || i >= t.len() {
        None
    } else if t[i] == '#' || t[i] == '|' || closer_at(t, i, n) {
        Some(i)
    } else {
        path_term(t, i + 1, n)
    }
}

/// The first closing delimiter at or past `i` with no line break before it.
pub open spec fn right_end(t: Seq<char>, i: int, n: Notation) -> Option<int>
    decreases t.len() - i,
{
    if i < 0 || i >= t.len() {
        None
    } else if closer_at(t, i, n) {
        Some(i)
    } else if t[i] == '\n' {
        None
    } else {
        right_end(t, i + 1, n)
    }
}

/// The position just past the first `](` at or past `i` on the current
/// line: where a Markdown-style left delimiter ends.
pub open spec fn md_left_end(t: Seq<char>, i: int) -> Option<int>
    decreases t.len() - i,
{
    if i < 0 || i + 2 > t.len() {
        None
    } else if t[i] == ']' && t[i + 1] == '(' {
        Some(i + 2)
    } else if t[i] == '\n' {
        None
    } else {
        md_left_end(t, i + 1)
    }
}

/// The namespace marker starting at `i`, if any.
pub open spec fn prefix_at(t: Seq<char>, i: int) -> Option<LinkPrefix> {
    if 0 <= i && i + 6 <= t.len() && t.subrange(i, i + 6) == prefix_text(LinkPrefix::Diary) {
        Some(LinkPrefix::Diary)
    } else if 0 <= i && i + 5 <= t.len() && t.subrange(i, i + 5) == prefix_text(LinkPrefix::File) {
        Some(LinkPrefix::File)
    } else if 0 <= i && i + 6 <= t.len() && t.subrange(i, i + 6) == prefix_text(
        LinkPrefix::Local,
    ) {
        Some(LinkPrefix::Local)
    } else {
        None
    }
}

/// Close a match whose path runs from `p0` to the terminator `q`: either the
/// closer stands at `q`, or the anchor/description text from `q` must reach
/// a closer on the same line.
pub open spec fn finish_match(
    t: Seq<char>,
    start: int,
    left_end: int,
    pfx: Option<LinkPrefix>,
    p0: int,
    q: int,
    n: Notation,
) -> Option<SpecMatch> {
    if closer_at(t, q, n) {
        Some(
            SpecMatch {
                start,
                left_end,
                path_start: p0,
                path_end: q,
                end: q + closer_len(n),
                prefix: pfx,
            },
        )
    } else {
        match right_end(t, q, n) {
            Some(r) => Some(
                SpecMatch {
                    start,
                    left_end,
                    path_start: p0,
                    path_end: q,
                    end: r + closer_len(n),
                    prefix: pfx,
                },
            ),
            None => None,
        }
    }
}

/// Parse prefix and path once the left delimiter ends at `k`.  The path must
/// be non-empty: a prefix whose path would be empty is re-read as path text,
/// and a whitespace run inside the opening delimiter lends its last
/// character to an otherwise empty path (`ws_start` is where that run could
/// begin).
pub open spec fn match_body(
    t: Seq<char>,
    start: int,
    ws_start: int,
    k: int,
    n: Notation,
) -> Option<SpecMatch> {
    let pfx = prefix_at(t, k);
    let p0 = match pfx {
        Some(p) => k + prefix_text(p).len(),
        None => k,
    };
    match path_term(t, p0, n) {
        None => None,
        Some(q) => if q > p0 {
            finish_match(t, start, k, pfx, p0, q, n)
        } else if pfx is Some {
            match path_term(t, k, n) {
                Some(q2) => if q2 > k {
                    finish_match(t, start, k, None, k, q2, n)
                } else {
                    None
                },
                None => None,
            }
        } else if k > ws_start {
            finish_match(t, start, k - 1, None, k - 1, q, n)
        } else {
            None
        },
    }
}

/// Try to recognize one link whose opening delimiter stands at `i`.
pub open spec fn try_match_at(t: Seq<char>, i: int, n: Notation) -> Option<SpecMatch> {
    if !opener_at(t, i, n) {
        None
    } else {
        match n {
            Notation::Markdown => match md_left_end(t, i + 1) {
                Some(k) => match_body(t, i, k, k, n),
                None => None,
            },
            _ => match_body(t, i, i + 2, ws_end(t, i + 2), n),
        }
    }
}

/// The leftmost link match starting at or past `i`.
pub open spec fn find_from(t: Seq<char>, i: int, n: Notation) -> Option<SpecMatch>
    decreases t.len() - i,
{
    if i < 0 || i >= t.len() {
        None
    } else if try_match_at(t, i, n) is Some {
        try_match_at(t, i, n)
    } else {
        find_from(t, i + 1, n)
    }
}

// ---------------------------------------------------------------------------
// Wellformedness of matches
// ---------------------------------------------------------------------------

pub proof fn lemma_ws_end(t: Seq<char>, i: int)
    requires
        0 <= i <= t.len(),
    ensures
        i <= ws_end(t, i) <= t.len(),
    decreases t.len() - i,
{
    if i < t.len() && spec_is_ws(t[i]) {
        lemma_ws_end(t, i + 1);
    }
}

pub proof fn lemma_path_term(t: Seq<char>, i: int, n: Notation)
    ensures
        path_term(t, i, n) matches Some(q) ==> i <= q < t.len(),
    decreases t.len() - i,
{
    if i < 0 || i >= t.len() {
    } else if t[i] == '#' || t[i] == '|' || closer_at(t, i, n) {
    } else {
        lemma_path_term(t, i + 1, n);
    }
}

pub proof fn lemma_right_end(t: Seq<char>, i: int, n: Notation)
    ensures
        right_end(t, i, n) matches Some(r) ==> i <= r && closer_at(t, r, n) && r + closer_len(n)
            <= t.len(),
    decreases t.len() - i,
{
    if i < 0 || i >= t.len() {
    } else if closer_at(t, i, n) {
    } else if t[i] == '\n' {
    } else {
        lemma_right_end(t, i + 1, n);
    }
}

pub proof fn lemma_md_left_end(t: Seq<char>, i: int)
    ensures
        md_left_end(t, i) matches Some(k) ==> i + 2 <= k <= t.len(),
    decreases t.len() - i,
{
    if i < 0 || i + 2 > t.len() {
    } else if t[i] == ']' && t[i + 1] == '(' {
    } else if t[i] == '\n' {
    } else {
        lemma_md_left_end(t, i + 1);
    }
}

/// Every recognized match is well-formed: its parts stand in order inside
/// the text, the path is non-empty, and the prefix, when present, is the
/// verbatim text between the left delimiter and the path.
pub proof fn lemma_match_wf(t: Seq<char>, i: int, n: Notation)
    ensures
        try_match_at(t, i, n) matches Some(m) ==> {
            &&& m.start == i
            &&& 0 <= m.start
            &&& m.start + 2 <= m.left_end
            &&& m.left_end <= m.path_start
            &&& m.path_start < m.path_end
            &&& m.path_end < m.end
            &&& m.end <= t.len()
            &&& (m.prefix matches Some(p) ==> m.path_start == m.left_end + prefix_text(p).len()
                && t.subrange(m.left_end, m.path_start) == prefix_text(p))
            &&& (m.prefix is None ==> m.path_start == m.left_end)
        },
{
    if try_match_at(t, i, n) is Some {
        assert(opener_at(t, i, n));
        let ws_start: int = if n is Markdown {
            match md_left_end(t, i + 1) {
                Some(k) => k,
                None => i,
            }
        } else {
            i + 2
        };
        let k: int = if n is Markdown {
            ws_start
        } else {
            ws_end(t, i + 2)
        };
        if n is Markdown {
            lemma_md_left_end(t, i + 1);
            assert(md_left_end(t, i + 1) is Some);
            assert(i + 3 <= k <= t.len());
        } else {
            lemma_ws_end(t, i + 2);
            assert(i + 2 <= k <= t.len());
        }
        let pfx = prefix_at(t, k);
        let p0: int = match pfx {
            Some(p) => k + prefix_text(p).len(),
            None => k,
        };
        lemma_path_term(t, p0, n);
        lemma_path_term(t, k, n);
        let m = try_match_at(t, i, n)->Some_0;
        match path_term(t, p0, n) {
            None => {
                assert(false);
            },
            Some(q) => {
                if q > p0 {
                    lemma_finish_wf(t, i, k, pfx, p0, q, n);
                    if pfx is Some {
                        let p = pfx->Some_0;
                        assert(t.subrange(k, k + prefix_text(p).len() as int) == prefix_text(p));
                    }
                } else if pfx is Some {
                    match path_term(t, k, n) {
                        Some(q2) => {
                            if q2 > k {
                                lemma_finish_wf(t, i, k, None, k, q2, n);
                            } else {
                                assert(false);
                            }
                        },
                        None => {
                            assert(false);
                        },
                    }
                } else if k > ws_start {
                    assert(q == p0);
                    lemma_finish_wf(t, i, k - 1, None, k - 1, q, n);
                } else {
                    assert(false);
                }
            },
        }
    }
}

proof fn lemma_finish_wf(
    t: Seq<char>,
    start: int,
    left_end: int,
    pfx: Option<LinkPrefix>,
    p0: int,
    q: int,
    n: Notation,
)
    requires
        p0 < q,
        q < t.len(),
    ensures
        finish_match(t, start, left_end, pfx, p0, q, n) matches Some(m) ==> {
            &&& m.start == start
            &&& m.left_end == left_end
            &&& m.path_start == p0
            &&& m.path_end == q
            &&& m.prefix == pfx
            &&& q < m.end <= t.len()
        },
{
    if closer_at(t, q, n) {
        assert(q + closer_len(n) <= t.len());
    } else {
        lemma_right_end(t, q, n);
    }
}

/// The leftmost match is a match at its own start position, at or past the
/// position the search began from.
pub proof fn lemma_find_from(t: Seq<char>, i: int, n: Notation)
    ensures
        find_from(t, i, n) matches Some(m) ==> i <= m.start && try_match_at(t, m.start, n)
            == Some(m),
    decreases t.len() - i,
{
    if i < 0 || i >= t.len() {
    } else if try_match_at(t, i, n) is Some {
        lemma_match_wf(t, i, n);
    } else {
        lemma_find_from(t, i + 1, n);
    }
}

// ---------------------------------------------------------------------------
// The executable matcher
// ---------------------------------------------------------------------------

/// One recognized link occurrence, with the captured substrings.
pub struct LinkMatch {
    /// Where the match begins in the scanned text.
    pub start: usize,
    /// Where the match ends (just past the closing delimiter).
    pub end: usize,
    /// The verbatim left delimiter (for example `[[ `).
    pub left: String,
    /// The recognized namespace marker, if any.
    pub prefix: Option<LinkPrefix>,
    /// The captured path, verbatim (not yet trimmed).
    pub path: String,
    /// The verbatim right delimiter, anchor and description included.
    pub right: String,
}

/// How an executable match corresponds to a specification-level match.
pub open spec fn lm_matches(lm: LinkMatch, t: Seq<char>, m: SpecMatch) -> bool {
    &&& lm.start as int == m.start
    &&& lm.end as int == m.end
    &&& lm.prefix == m.prefix
    &&& lm.left@ == t.subrange(m.start, m.left_end)
    &&& lm.path@ == t.subrange(m.path_start, m.path_end)
    &&& lm.right@ == t.subrange(m.path_end, m.end)
}

fn opener_at_exec(s: &str, i: usize, n: Notation) -> (r: bool)
    requires
        i <= s@.len(),
    ensures
        r == opener_at(s@, i as int, n),
{
    let len = s.unicode_len();
    match n {
        Notation::Markdown => i < len && s.get_char(i) == '[',
        Notation::WikiLink => i < len && s.get_char(i) == '[' && i + 1 < len && s.get_char(i + 1)
            == '[',
        Notation::Transclusion => i < len && s.get_char(i) == '{' && i + 1 < len && s.get_char(
            i + 1,
        ) == '{',
    }
}

fn closer_at_exec(s: &str, i: usize, n: Notation) -> (r: bool)
    requires
        i <= s@.len(),
    ensures
        r == closer_at(s@, i as int, n),
{
    let len = s.unicode_len();
    match n {
        Notation::Markdown => i < len && s.get_char(i) == ')',
        Notation::WikiLink => i < len && s.get_char(i) == ']' && i + 1 < len && s.get_char(i + 1)
            == ']',
        Notation::Transclusion => i < len && s.get_char(i) == '}' && i + 1 < len && s.get_char(
            i + 1,
        ) == '}',
    }
}

fn ws_end_exec(s: &str, i: usize) -> (r: usize)
    requires
        i <= s@.len(),
    ensures
        r as int == ws_end(s@, i as int),
        i <= r <= s@.len(),
{
    let n = s.unicode_len();
    let mut j = i;
    while j < n && is_ws(s.get_char(j))
        invariant
            i <= j <= n,
            n == s@.len(),
            ws_end(s@, i as int) == ws_end(s@, j as int),
        decreases n - j,
    {
        j += 1;
    }
    j
}

fn path_term_exec(s: &str, i: usize, n: Notation) -> (r: Option<usize>)
    requires
        i <= s@.len(),
    ensures
        r matches Some(q) ==> path_term(s@, i as int, n) == Some(q as int) && i <= q && (q as int)
            < s@.len(),
        r is None ==> path_term(s@, i as int, n) is None,
{
    let len = s.unicode_len();
    let mut j = i;
    while j < len
        invariant
            i <= j <= len,
            len == s@.len(),
            path_term(s@, i as int, n) == path_term(s@, j as int, n),
        decreases len - j,
    {
        let c = s.get_char(j);
        if c == '#' || c == '|' || closer_at_exec(s, j, n) {
            return Some(j);
        }
        j += 1;
    }
    None
}

fn right_end_exec(s: &str, i: usize, n: Notation) -> (r: Option<usize>)
    requires
        i <= s@.len(),
    ensures
        r matches Some(q) ==> right_end(s@, i as int, n) == Some(q as int) && i <= q && (
        q as int) + closer_len(n) <= s@.len(),
        r is None ==> right_end(s@, i as int, n) is None,
{
    let len = s.unicode_len();
    let mut j = i;
    while j < len
        invariant
            i <= j <= len,
            len == s@.len(),
            right_end(s@, i as int, n) == right_end(s@, j as int, n),
        decreases len - j,
    {
        if closer_at_exec(s, j, n) {
            return Some(j);
        }
        if s.get_char(j) == '\n' {
            return None;
        }
        j += 1;
    }
    None
}

fn md_left_end_exec(s: &str, i: usize) -> (r: Option<usize>)
    requires
        i <= s@.len(),
    ensures
        r matches Some(k) ==> md_left_end(s@, i as int) == Some(k as int) && i + 2 <= k && k
            <= s@.len(),
        r is None ==> md_left_end(s@, i as int) is None,
{
    let len = s.unicode_len();
    let mut j = i;
    while j < len && j + 1 < len
        invariant
            i <= j <= len,
            len == s@.len(),
            md_left_end(s@, i as int) == md_left_end(s@, j as int),
        decreases len - j,
    {
        let c = s.get_char(j);
        if c == ']' && s.get_char(j + 1) == '(' {
            return Some(j + 2);
        }
        if c == '\n' {
            return None;
        }
        j += 1;
    }
    None
}

fn prefix_at_exec(s: &str, k: usize) -> (r: Option<LinkPrefix>)
    requires
        k <= s@.len(),
    ensures
        r == prefix_at(s@, k as int),
{
    let len = s.unicode_len();
    proof {
        assert(prefix_text(LinkPrefix::Diary) =~= seq!['d', 'i', 'a', 'r', 'y', ':']);
        assert(prefix_text(LinkPrefix::File) =~= seq!['f', 'i', 'l', 'e', ':']);
        assert(prefix_text(LinkPrefix::Local) =~= seq!['l', 'o', 'c', 'a', 'l', ':']);
    }
    if len >= 6 && k <= len - 6 && s.get_char(k) == 'd' && s.get_char(k + 1) == 'i' && s.get_char(
        k + 2,
    ) == 'a' && s.get_char(k + 3) == 'r' && s.get_char(k + 4) == 'y' && s.get_char(k + 5) == ':' {
        proof {
            assert(s@.subrange(k as int, k as int + 6) =~= prefix_text(LinkPrefix::Diary));
        }
        return Some(LinkPrefix::Diary);
    }
    proof {
        if k + 6 <= s@.len() {
            assert(s@.subrange(k as int, k as int + 6)[0] == s@[k as int]);
            assert(s@.subrange(k as int, k as int + 6)[1] == s@[k as int + 1]);
            assert(s@.subrange(k as int, k as int + 6)[2] == s@[k as int + 2]);
            assert(s@.subrange(k as int, k as int + 6)[3] == s@[k as int + 3]);
            assert(s@.subrange(k as int, k as int + 6)[4] == s@[k as int + 4]);
            assert(s@.subrange(k as int, k as int + 6)[5] == s@[k as int + 5]);
            assert(s@.subrange(k as int, k as int + 6) != prefix_text(LinkPrefix::Diary));
        }
    }
    if len >= 5 && k <= len - 5 && s.get_char(k) == 'f' && s.get_char(k + 1) == 'i' && s.get_char(
        k + 2,
    ) == 'l' && s.get_char(k + 3) == 'e' && s.get_char(k + 4) == ':' {
        proof {
            assert(s@.subrange(k as int, k as int + 5) =~= prefix_text(LinkPrefix::File));
        }
        return Some(LinkPrefix::File);
    }
    proof {
        if k + 5 <= s@.len() {
            assert(s@.subrange(k as int, k as int + 5)[0] == s@[k as int]);
            assert(s@.subrange(k as int, k as int + 5)[1] == s@[k as int + 1]);
            assert(s@.subrange(k as int, k as int + 5)[2] == s@[k as int + 2]);
            assert(s@.subrange(k as int, k as int + 5)[3] == s@[k as int + 3]);
            assert(s@.subrange(k as int, k as int + 5)[4] == s@[k as int + 4]);
            assert(s@.subrange(k as int, k as int + 5) != prefix_text(LinkPrefix::File));
        }
    }
    if len >= 6 && k <= len - 6 && s.get_char(k) == 'l' && s.get_char(k + 1) == 'o' && s.get_char(
        k + 2,
    ) == 'c' && s.get_char(k + 3) == 'a' && s.get_char(k + 4) == 'l' && s.get_char(k + 5) == ':' {
        proof {
            assert(s@.subrange(k as int, k as int + 6) =~= prefix_text(LinkPrefix::Local));
        }
        return Some(LinkPrefix::Local);
    }
    proof {
        if k + 6 <= s@.len() {
            assert(s@.subrange(k as int, k as int + 6)[0] == s@[k as int]);
            assert(s@.subrange(k as int, k as int + 6)[1] == s@[k as int + 1]);
            assert(s@.subrange(k as int, k as int + 6)[2] == s@[k as int + 2]);
            assert(s@.subrange(k as int, k as int + 6)[3] == s@[k as int + 3]);
            assert(s@.subrange(k as int, k as int + 6)[4] == s@[k as int + 4]);
            assert(s@.subrange(k as int, k as int + 6)[5] == s@[k as int + 5]);
            assert(s@.subrange(k as int, k as int + 6) != prefix_text(LinkPrefix::Local));
        }
    }
    None
}

/// Close a match whose path runs from `p0` to the terminator `q`, extracting
/// the captured substrings.
fn finish_match_exec(
    s: &str,
    start: usize,
    left_end: usize,
    pfx: Option<LinkPrefix>,
    p0: usize,
    q: usize,
    n: Notation,
) -> (r: Option<LinkMatch>)
    requires
        start <= left_end <= p0 < q,
        (q as int) < s@.len(),
    ensures
        r is Some <==> finish_match(s@, start as int, left_end as int, pfx, p0 as int, q as int, n)
            is Some,
        r matches Some(lm) ==> lm_matches(
            lm,
            s@,
            finish_match(
                s@,
                start as int,
                left_end as int,
                pfx,
                p0 as int,
                q as int,
                n,
            )->Some_0,
        ),
{
    let text_len = s.unicode_len();
    let close_len: usize = match n {
        Notation::Markdown => 1,
        Notation::WikiLink => 2,
        Notation::Transclusion => 2,
    };
    proof {
        assert(close_len as int == closer_len(n));
        assert(s@.len() == text_len);
    }
    let end: usize = if closer_at_exec(s, q, n) {
        proof {
            assert(q as int + closer_len(n) <= s@.len());
        }
        q + close_len
    } else {
        match right_end_exec(s, q, n) {
            Some(r) => r + close_len,
            None => {
                return None;
            },
        }
    };
    let left = String::from_str(s.substring_char(start, left_end));
    let path = String::from_str(s.substring_char(p0, q));
    let right = String::from_str(s.substring_char(q, end));
    Some(LinkMatch { start, end, left, prefix: pfx, path, right })
}

/// Try to recognize one link whose opening delimiter stands at `i`.
fn try_match_at_exec(s: &str, i: usize, n: Notation) -> (r: Option<LinkMatch>)
    requires
        i <= s@.len(),
    ensures
        r is Some <==> try_match_at(s@, i as int, n) is Some,
        r matches Some(lm) ==> lm_matches(lm, s@, try_match_at(s@, i as int, n)->Some_0),
{
    let len = s.unicode_len();
    if i >= len {
        return None;
    }
    if !opener_at_exec(s, i, n) {
        return None;
    }
    let (ws_start, k): (usize, usize) = match n {
        Notation::Markdown => {
            match md_left_end_exec(s, i + 1) {
                Some(k) => (k, k),
                None => {
                    return None;
                },
            }
        },
        _ => (i + 2, ws_end_exec(s, i + 2)),
    };
    let pfx = prefix_at_exec(s, k);
    let p0: usize = match pfx {
        Some(LinkPrefix::Diary) => k + 6,
        Some(LinkPrefix::File) => k + 5,
        Some(LinkPrefix::Local) => k + 6,
        None => k,
    };
    match path_term_exec(s, p0, n) {
        None => None,
        Some(q) => {
            if q > p0 {
                finish_match_exec(s, i, k, pfx, p0, q, n)
            } else if pfx.is_some() {
                match path_term_exec(s, k, n) {
                    Some(q2) => {
                        if q2 > k {
                            finish_match_exec(s, i, k, None, k, q2, n)
                        } else {
                            None
                        }
                    },
                    None => None,
                }
            } else if k > ws_start {
                finish_match_exec(s, i, k - 1, None, k - 1, q, n)
            } else {
                None
            }
        },
    }
}

/// The leftmost link of the given notation starting at or past `from`.
pub fn find_link(s: &str, from: usize, n: Notation) -> (r: Option<LinkMatch>)
    requires
        from <= s@.len(),
    ensures
        r is Some <==> find_from(s@, from as int, n) is Some,
        r matches Some(lm) ==> lm_matches(lm, s@, find_from(s@, from as int, n)->Some_0),
{
    let len = s.unicode_len();
    let mut i = from;
    while i < len
        invariant
            from <= i <= len,
            len == s@.len(),
            find_from(s@, from as int, n) == find_from(s@, i as int, n),
        decreases len - i,
    {
        if opener_at_exec(s, i, n) {
            match try_match_at_exec(s, i, n) {
                Some(lm) => {
                    return Some(lm);
                },
                None => {},
            }
        }
        i += 1;
    }
    None
}

// ---------------------------------------------------------------------------
// Links
// ---------------------------------------------------------------------------

/// A captured link: an optional namespace marker and the path text, trimmed
/// of surrounding whitespace.
pub struct Link {
    pub(crate) prefix: Option<String>,
    pub(crate) path: String,
}

/// The textual form of a link: the prefix, a `:` after it, then the path.
pub open spec fn spec_display(prefix: Option<Seq<char>>, path: Seq<char>) -> Seq<char> {
    match prefix {
        Some(p) => p + seq![':'] + path,
        None => path,
    }
}

impl Link {
    /// The namespace marker, as a specification-level view.
    pub closed spec fn prefix_view(&self) -> Option<Seq<char>> {
        match self.prefix {
            Some(ref p) => Some(p@),
            None => None,
        }
    }

    /// The trimmed path, as a specification-level view.
    pub closed spec fn path_view(&self) -> Seq<char> {
        self.path@
    }

    /// Inside the crate, the views are the stored fields.
    pub(crate) proof fn lemma_views(&self)
        ensures
            self.path_view() == self.path@,
            self.prefix is Some <==> self.prefix_view() is Some,
            self.prefix matches Some(p) ==> self.prefix_view() == Some(p@),
    {
    }

    /// Capture a link from its parts; the path is trimmed of surrounding
    /// whitespace.
    pub fn new(prefix: Option<&str>, path: &str) -> (r: Link)
        ensures
            r.path_view() == trim_ws(path@),
            match prefix {
                Some(p) => r.prefix_view() == Some(p@),
                None => r.prefix_view() is None,
            },
    {
        let stored: Option<String> = match prefix {
            Some(p) => Some(String::from_str(p)),
            None => None,
        };
        Link { prefix: stored, path: trim_exec(path) }
    }

    /// The link as it would be written: prefix, `:`, path.
    pub fn display(&self) -> (r: String)
        ensures
            r@ == spec_display(self.prefix_view(), self.path_view()),
    {
        match &self.prefix {
            Some(p) => {
                proof {
                    reveal_strlit(":");
                }
                let mut out = p.clone();
                out.append(":");
                out.append(self.path.as_str());
                proof {
                    assert(out@ =~= spec_display(self.prefix_view(), self.path_view()));
                }
                out
            },
            None => self.path.clone(),
        }
    }
}

/// A string with surrounding whitespace removed.
pub(crate) fn trim_exec(s: &str) -> (r: String)
    ensures
        r@ == trim_ws(s@),
{
    let n = s.unicode_len();
    let mut a: usize = 0;
    proof {
        assert(s@.skip(0) =~= s@);
    }
    while a < n && is_ws(s.get_char(a))
        invariant
            a <= n,
            n == s@.len(),
            trim_start(s@) == trim_start(s@.skip(a as int)),
        decreases n - a,
    {
        proof {
            assert(s@.skip(a as int)[0] == s@[a as int]);
            assert(s@.skip(a as int).skip(1) =~= s@.skip(a as int + 1));
        }
        a += 1;
    }
    proof {
        if a < n {
            assert(s@.skip(a as int)[0] == s@[a as int]);
        }
        assert(trim_start(s@) == s@.skip(a as int));
    }
    let mut b: usize = n;
    while b > a && is_ws(s.get_char(b - 1))
        invariant
            a <= b <= n,
            n == s@.len(),
            trim_end(s@.skip(a as int)) == trim_end(s@.subrange(a as int, b as int)),
        decreases b,
    {
        proof {
            let sub = s@.subrange(a as int, b as int);
            assert(sub.last() == s@[b as int - 1]);
            assert(sub.drop_last() =~= s@.subrange(a as int, b as int - 1));
        }
        b -= 1;
    }
    proof {
        let sub = s@.subrange(a as int, b as int);
        if b > a {
            assert(sub.last() == s@[b as int - 1]);
        }
        assert(trim_end(s@.subrange(a as int, b as int)) == s@.subrange(a as int, b as int));
    }
    String::from_str(s.substring_char(a, b))
}

/// Whether two strings hold the same characters.
pub(crate) fn str_eq(a: &str, b: &str) -> (r: bool)
    ensures
        r == (a@ == b@),
{
    let na = a.unicode_len();
    let nb = b.unicode_len();
    if na != nb {
        proof {
            assert(a@ != b@) by {
                if a@ == b@ {
                    assert(a@.len() == b@.len());
                }
            }
        }
        return false;
    }
    let mut i: usize = 0;
    while i < na
        invariant
            i <= na,
            na == a@.len(),
            na == b@.len(),
            forall|j: int| 0 <= j < i ==> a@[j] == b@[j],
        decreases na - i,
    {
        if a.get_char(i) != b.get_char(i) {
            return false;
        }
        i += 1;
    }
    proof {
        assert(a@ =~= b@);
    }
    true
}

} // verus!
