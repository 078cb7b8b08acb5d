//! The mathematical model of locations: absolute paths are character
//! sequences, read as `/`-separated segments.  This module defines segment
//! splitting and joining, lexical normalization (resolving `.` and `..`,
//! collapsing separators), file extensions, the extension-tolerant equality
//! rule used to compare locations, the reserved diary area, and the shortest
//! relative path between two absolute locations.
use vstd::prelude::*;

verus! {

/// The whitespace characters consumed inside opening delimiters and trimmed
/// from captured link paths: the Unicode White_Space set, the same
/// characters `char::is_whitespace` accepts, written out.
pub open spec fn spec_is_ws(c: char) -> bool {
    c == ' ' || c == '\t' || c == '\n' || c == '\r' || c == '\u{b}' || c == '\u{c}' || c
        == '\u{85}' || c == '\u{a0}' || c == '\u{1680}' || c == '\u{2000}' || c == '\u{2001}' || c
        == '\u{2002}' || c == '\u{2003}' || c == '\u{2004}' || c == '\u{2005}' || c == '\u{2006}'
        || c == '\u{2007}' || c == '\u{2008}' || c == '\u{2009}' || c == '\u{200a}' || c
        == '\u{2028}' || c == '\u{2029}' || c == '\u{202f}' || c == '\u{205f}' || c == '\u{3000}'
}

/// Executable test for [`spec_is_ws`].
#[verifier::when_used_as_spec(spec_is_ws)]
pub fn is_ws(c: char) -> (r: bool)
    ensures
        r == spec_is_ws(c),
{
    c == ' ' || c == '\t' || c == '\n' || c == '\r' || c == '\u{b}' || c == '\u{c}' || c
        == '\u{85}' || c == '\u{a0}' || c == '\u{1680}' || c == '\u{2000}' || c == '\u{2001}' || c
        == '\u{2002}' || c == '\u{2003}' || c == '\u{2004}' || c == '\u{2005}' || c == '\u{2006}'
        || c == '\u{2007}' || c == '\u{2008}' || c == '\u{2009}' || c == '\u{200a}' || c
        == '\u{2028}' || c == '\u{2029}' || c == '\u{202f}' || c == '\u{205f}' || c == '\u{3000}'
}

/// Split a character sequence at every `/`.  The result always has at least
/// one element; an empty input yields one empty segment.
pub open spec fn split_slash(s: Seq<char>) -> Seq<Seq<char>>
    decreases s.len(),
{
    if s.len() == 0 {
        seq![Seq::<char>::empty()]
    } else if s[0] == '/' {
        seq![Seq::<char>::empty()] + split_slash(s.skip(1))
    } else {
        let rest = split_slash(s.skip(1));
        seq![seq![s[0]] + rest[0]] + rest.skip(1)
    }
}

/// Join segments with `/` between them.
pub open spec fn join_slash(segs: Seq<Seq<char>>) -> Seq<char>
    decreases segs.len(),
{
    if segs.len() == 0 {
        Seq::empty()
    } else if segs.len() == 1 {
        segs[0]
    } else {
        segs[0] + seq!['/'] + join_slash(segs.skip(1))
    }
}

/// A segment of a normalized path: non-empty, not `.` or `..`, and free of
/// separators.
pub open spec fn valid_seg(s: Seq<char>) -> bool {
    s.len() > 0 && s != seq!['.'] && s != seq!['.', '.'] && !s.contains('/')
}

pub open spec fn all_valid_segs(segs: Seq<Seq<char>>) -> bool {
    forall|i: int| 0 <= i < segs.len() ==> valid_seg(#[trigger] segs[i])
}

/// The absolute path whose segments are `segs`: `/` followed by the joined
/// segments.
pub open spec fn abs_of_segs(segs: Seq<Seq<char>>) -> Seq<char> {
    seq!['/'] + join_slash(segs)
}

/// An absolute path string: starts with `/`.
pub open spec fn is_abs_str(s: Seq<char>) -> bool {
    s.len() >= 1 && s[0] == '/'
}

/// The segments of an absolute path string.  The root `/` alone has none.
pub open spec fn segs_of_abs(s: Seq<char>) -> Seq<Seq<char>> {
    if s.len() <= 1 {
        Seq::empty()
    } else {
        split_slash(s.skip(1))
    }
}

/// A normalized absolute path: absolute, and every segment is valid (so no
/// empty segments from doubled or trailing separators, and no residual `.`
/// or `..`).
pub open spec fn is_clean_abs(s: Seq<char>) -> bool {
    is_abs_str(s) && all_valid_segs(segs_of_abs(s))
}

/// One step of lexical normalization: empty and `.` segments vanish, `..`
/// removes the previous segment (or vanishes at the root), anything else is
/// kept.  This mirrors the Plan 9 `cleanname` rules for rooted paths.
pub open spec fn clean_step(acc: Seq<Seq<char>>, seg: Seq<char>) -> Seq<Seq<char>> {
    if seg == seq!['.', '.'] {
        if acc.len() > 0 {
            acc.drop_last()
        } else {
            acc
        }
    } else if seg.len() > 0 && seg != seq!['.'] {
        acc.push(seg)
    } else {
        acc
    }
}

/// Lexical normalization of a segment list, applying [`clean_step`] left to
/// right.
pub open spec fn clean_segments(segs: Seq<Seq<char>>) -> Seq<Seq<char>>
    decreases segs.len(),
{
    if segs.len() == 0 {
        Seq::empty()
    } else {
        clean_step(clean_segments(segs.drop_last()), segs.last())
    }
}

/// Lexical normalization of an absolute path string.
pub open spec fn spec_clean_abs(s: Seq<char>) -> Seq<char> {
    abs_of_segs(clean_segments(split_slash(s.skip(1))))
}

// ---------------------------------------------------------------------------
// Lemmas about splitting and joining
// ---------------------------------------------------------------------------

pub proof fn lemma_split_len(s: Seq<char>)
    ensures
        split_slash(s).len() >= 1,
    decreases s.len(),
{
    if s.len() == 0 {
    } else {
        lemma_split_len(s.skip(1));
    }
}

pub proof fn lemma_split_no_slash(s: Seq<char>)
    ensures
        forall|i: int|
            0 <= i < split_slash(s).len() ==> !(#[trigger] split_slash(s)[i]).contains('/'),
    decreases s.len(),
{
    if s.len() == 0 {
        assert forall|i: int|
            0 <= i < split_slash(s).len() implies !(#[trigger] split_slash(s)[i]).contains(
            '/',
        ) by {
            assert(split_slash(s)[i] =~= Seq::<char>::empty());
        }
    } else if s[0] == '/' {
        lemma_split_no_slash(s.skip(1));
        assert forall|i: int|
            0 <= i < split_slash(s).len() implies !(#[trigger] split_slash(s)[i]).contains(
            '/',
        ) by {
            if i == 0 {
                assert(split_slash(s)[0] =~= Seq::<char>::empty());
            } else {
                assert(split_slash(s)[i] == split_slash(s.skip(1))[i - 1]);
            }
        }
    } else {
        lemma_split_no_slash(s.skip(1));
        lemma_split_len(s.skip(1));
        let rest = split_slash(s.skip(1));
        assert forall|i: int|
            0 <= i < split_slash(s).len() implies !(#[trigger] split_slash(s)[i]).contains(
            '/',
        ) by {
            if i == 0 {
                assert(split_slash(s)[0] == seq![s[0]] + rest[0]);
                assert(!rest[0].contains('/'));
                assert forall|j: int| 0 <= j < (seq![s[0]] + rest[0]).len() implies (seq![s[0]]
                    + rest[0])[j] != '/' by {
                    if j == 0 {
                    } else {
                        assert((seq![s[0]] + rest[0])[j] == rest[0][j - 1]);
                        assert(!rest[0].contains('/'));
                    }
                }
            } else {
                assert(split_slash(s)[i] == rest.skip(1)[i - 1]);
                assert(rest.skip(1)[i - 1] == rest[i]);
            }
        }
    }
}

pub proof fn lemma_join_split(s: Seq<char>)
    ensures
        join_slash(split_slash(s)) == s,
    decreases s.len(),
{
    if s.len() == 0 {
        assert(join_slash(split_slash(s)) =~= s);
    } else if s[0] == '/' {
        lemma_join_split(s.skip(1));
        lemma_split_len(s.skip(1));
        let parts = split_slash(s);
        assert(parts.len() >= 2);
        assert(parts[0] =~= Seq::<char>::empty());
        assert(parts.skip(1) =~= split_slash(s.skip(1)));
        assert(join_slash(parts) =~= parts[0] + seq!['/'] + join_slash(parts.skip(1)));
        assert(join_slash(parts) =~= s);
    } else {
        lemma_join_split(s.skip(1));
        lemma_split_len(s.skip(1));
        let rest = split_slash(s.skip(1));
        let parts = split_slash(s);
        if rest.len() == 1 {
            assert(parts =~= seq![seq![s[0]] + rest[0]]);
            assert(join_slash(rest) == rest[0]);
            assert(join_slash(parts) == seq![s[0]] + rest[0]);
            assert(join_slash(parts) =~= s);
        } else {
            assert(parts[0] == seq![s[0]] + rest[0]);
            assert(parts.skip(1) =~= rest.skip(1));
            assert(join_slash(parts) == parts[0] + seq!['/'] + join_slash(rest.skip(1)));
            assert(join_slash(rest) == rest[0] + seq!['/'] + join_slash(rest.skip(1)));
            assert(join_slash(parts) =~= seq![s[0]] + join_slash(rest));
            assert(join_slash(parts) =~= s);
        }
    }
}

pub proof fn lemma_split_concat(a: Seq<char>, b: Seq<char>)
    ensures
        split_slash(a + seq!['/'] + b) == split_slash(a) + split_slash(b),
    decreases a.len(),
{
    let w = a + seq!['/'] + b;
    if a.len() == 0 {
        assert(w[0] == '/');
        assert(w.skip(1) =~= b);
        assert(split_slash(w) =~= seq![Seq::<char>::empty()] + split_slash(b));
        assert(split_slash(a) =~= seq![Seq::<char>::empty()]);
        assert(split_slash(w) =~= split_slash(a) + split_slash(b));
    } else if a[0] == '/' {
        lemma_split_concat(a.skip(1), b);
        assert(w[0] == '/');
        assert(w.skip(1) =~= a.skip(1) + seq!['/'] + b);
        assert(split_slash(w) =~= seq![Seq::<char>::empty()] + (split_slash(a.skip(1))
            + split_slash(b)));
        assert(split_slash(a) =~= seq![Seq::<char>::empty()] + split_slash(a.skip(1)));
        assert(split_slash(w) =~= split_slash(a) + split_slash(b));
    } else {
        lemma_split_concat(a.skip(1), b);
        lemma_split_len(a.skip(1));
        lemma_split_len(b);
        assert(w[0] == a[0]);
        assert(w.skip(1) =~= a.skip(1) + seq!['/'] + b);
        let rest = split_slash(a.skip(1)) + split_slash(b);
        assert(split_slash(w.skip(1)) == rest);
        assert(rest[0] == split_slash(a.skip(1))[0]);
        assert(rest.skip(1) =~= split_slash(a.skip(1)).skip(1) + split_slash(b));
        assert(split_slash(w) =~= seq![seq![a[0]] + split_slash(a.skip(1))[0]] + (split_slash(
            a.skip(1),
        ).skip(1) + split_slash(b)));
        assert(split_slash(a) =~= seq![seq![a[0]] + split_slash(a.skip(1))[0]] + split_slash(
            a.skip(1),
        ).skip(1));
        assert(split_slash(w) =~= split_slash(a) + split_slash(b));
    }
}

pub proof fn lemma_split_single(s: Seq<char>)
    requires
        !s.contains('/'),
    ensures
        split_slash(s) == seq![s],
    decreases s.len(),
{
    if s.len() == 0 {
        assert(split_slash(s) =~~= seq![s]);
    } else {
        assert(s[0] != '/');
        assert(!s.skip(1).contains('/')) by {
            assert forall|i: int| 0 <= i < s.skip(1).len() implies s.skip(1)[i] != '/' by {
                assert(s.skip(1)[i] == s[i + 1]);
            }
        }
        lemma_split_single(s.skip(1));
        assert(split_slash(s) =~= seq![seq![s[0]] + s.skip(1)]);
        assert(seq![s[0]] + s.skip(1) =~= s);
        assert(split_slash(s) =~~= seq![s]);
    }
}

pub proof fn lemma_split_join(segs: Seq<Seq<char>>)
    requires
        segs.len() >= 1,
        forall|i: int| 0 <= i < segs.len() ==> !(#[trigger] segs[i]).contains('/'),
    ensures
        split_slash(join_slash(segs)) == segs,
    decreases segs.len(),
{
    if segs.len() == 1 {
        lemma_split_single(segs[0]);
        assert(split_slash(join_slash(segs)) =~~= segs);
    } else {
        lemma_split_join(segs.skip(1));
        lemma_split_single(segs[0]);
        lemma_split_concat(segs[0], join_slash(segs.skip(1)));
        assert(split_slash(join_slash(segs)) =~~= seq![segs[0]] + segs.skip(1));
        assert(seq![segs[0]] + segs.skip(1) =~~= segs);
    }
}

pub proof fn lemma_join_push(segs: Seq<Seq<char>>, x: Seq<char>)
    ensures
        segs.len() == 0 ==> join_slash(segs.push(x)) == x,
        segs.len() > 0 ==> join_slash(segs.push(x)) == join_slash(segs) + seq!['/'] + x,
    decreases segs.len(),
{
    if segs.len() == 0 {
        assert(segs.push(x).len() == 1);
        assert(join_slash(segs.push(x)) == segs.push(x)[0]);
    } else if segs.len() == 1 {
        let p = segs.push(x);
        assert(p.len() == 2);
        assert(p[0] == segs[0]);
        assert(p.skip(1) =~= seq![x]);
        assert(join_slash(p) == p[0] + seq!['/'] + join_slash(p.skip(1)));
        assert(join_slash(p) == segs[0] + seq!['/'] + x);
        assert(join_slash(segs) == segs[0]);
    } else {
        lemma_join_push(segs.skip(1), x);
        let p = segs.push(x);
        assert(p[0] == segs[0]);
        assert(p.skip(1) =~= segs.skip(1).push(x));
        assert(join_slash(p) == p[0] + seq!['/'] + join_slash(segs.skip(1).push(x)));
        assert(join_slash(segs.skip(1).push(x)) == join_slash(segs.skip(1)) + seq!['/'] + x);
        assert(join_slash(segs) == segs[0] + seq!['/'] + join_slash(segs.skip(1)));
        assert(join_slash(p) =~= join_slash(segs) + seq!['/'] + x);
    }
}

/// Joining valid segments never yields an empty string, so the absolute form
/// has segments again.
pub proof fn lemma_abs_segs_roundtrip(segs: Seq<Seq<char>>)
    requires
        all_valid_segs(segs),
    ensures
        segs_of_abs(abs_of_segs(segs)) == segs,
        is_clean_abs(abs_of_segs(segs)),
    decreases segs.len(),
{
    let a = abs_of_segs(segs);
    assert(a[0] == '/');
    if segs.len() == 0 {
        assert(a =~= seq!['/']);
    } else {
        assert(segs[0].len() > 0);
        if segs.len() == 1 {
            assert(join_slash(segs) == segs[0]);
        } else {
            assert(join_slash(segs) == segs[0] + seq!['/'] + join_slash(segs.skip(1)));
            assert(join_slash(segs).len() >= segs[0].len());
        }
        assert(join_slash(segs).len() > 0);
        assert(a.len() > 1);
        assert(a.skip(1) =~= join_slash(segs));
        assert(forall|i: int| 0 <= i < segs.len() ==> !(#[trigger] segs[i]).contains('/'));
        lemma_split_join(segs);
    }
}

/// Rebuilding an absolute path from separator-free segments recovers the
/// segments, valid or not, as long as something is there to join.
pub proof fn lemma_abs_segs_inverse(segs: Seq<Seq<char>>)
    requires
        segs.len() >= 1,
        forall|i: int| 0 <= i < segs.len() ==> !(#[trigger] segs[i]).contains('/'),
        join_slash(segs).len() > 0,
    ensures
        segs_of_abs(abs_of_segs(segs)) == segs,
{
    let a = abs_of_segs(segs);
    assert(a.len() > 1);
    assert(a.skip(1) =~= join_slash(segs));
    lemma_split_join(segs);
}

// ---------------------------------------------------------------------------
// Lemmas about cleaning
// ---------------------------------------------------------------------------

pub proof fn lemma_clean_valid(segs: Seq<Seq<char>>)
    requires
        forall|i: int| 0 <= i < segs.len() ==> !(#[trigger] segs[i]).contains('/'),
    ensures
        all_valid_segs(clean_segments(segs)),
    decreases segs.len(),
{
    if segs.len() == 0 {
    } else {
        lemma_clean_valid(segs.drop_last());
        let acc = clean_segments(segs.drop_last());
        let last = segs.last();
        assert forall|i: int|
            0 <= i < clean_segments(segs).len() implies valid_seg(
            #[trigger] clean_segments(segs)[i],
        ) by {
            if last == seq!['.', '.'] {
            } else if last.len() > 0 && last != seq!['.'] {
                if i < acc.len() {
                    assert(clean_segments(segs)[i] == acc[i]);
                } else {
                    assert(clean_segments(segs)[i] == last);
                    assert(!last.contains('/'));
                    assert(last != seq!['.', '.']);
                }
            }
        }
    }
}

pub proof fn lemma_clean_fixed(segs: Seq<Seq<char>>)
    requires
        all_valid_segs(segs),
    ensures
        clean_segments(segs) == segs,
    decreases segs.len(),
{
    if segs.len() == 0 {
        assert(clean_segments(segs) =~= segs);
    } else {
        assert(all_valid_segs(segs.drop_last()));
        lemma_clean_fixed(segs.drop_last());
        let last = segs.last();
        assert(valid_seg(last));
        assert(clean_segments(segs) == segs.drop_last().push(last));
        assert(clean_segments(segs) =~= segs);
    }
}

/// Cleaning an absolute path yields a normalized absolute path whose
/// segments are exactly the cleaned segments.
pub proof fn lemma_clean_abs_wf(s: Seq<char>)
    requires
        is_abs_str(s),
    ensures
        is_clean_abs(spec_clean_abs(s)),
        segs_of_abs(spec_clean_abs(s)) == clean_segments(split_slash(s.skip(1))),
{
    lemma_split_no_slash(s.skip(1));
    lemma_clean_valid(split_slash(s.skip(1)));
    lemma_abs_segs_roundtrip(clean_segments(split_slash(s.skip(1))));
}

// ---------------------------------------------------------------------------
// Extensions, equality, the diary area, parents and relative paths
// ---------------------------------------------------------------------------

/// The index of the `.` that starts the extension of a file name, or -1 when
/// the name has no extension.  The extension is what follows the last `.`,
/// except that a leading `.` (a hidden file) starts no extension.
pub open spec fn ext_idx(seg: Seq<char>) -> int
    decreases seg.len(),
{
    if seg.len() <= 1 {
        -1
    } else if seg.last() == '.' {
        seg.len() - 1
    } else {
        ext_idx(seg.drop_last())
    }
}

pub proof fn lemma_ext_idx(seg: Seq<char>)
    ensures
        ext_idx(seg) == -1 || (1 <= ext_idx(seg) < seg.len()),
    decreases seg.len(),
{
    if seg.len() <= 1 {
    } else if seg.last() == '.' {
    } else {
        lemma_ext_idx(seg.drop_last());
    }
}

/// A file name without its extension.
pub open spec fn strip_ext_seg(seg: Seq<char>) -> Seq<char> {
    if ext_idx(seg) >= 1 {
        seg.take(ext_idx(seg))
    } else {
        seg
    }
}

/// Whether a normalized absolute path carries a file extension.
pub open spec fn spec_has_ext(p: Seq<char>) -> bool {
    segs_of_abs(p).len() > 0 && ext_idx(segs_of_abs(p).last()) >= 1
}

/// A normalized absolute path with the extension of its final segment
/// removed.  The root has no file name and is left unchanged.
pub open spec fn spec_strip_ext(p: Seq<char>) -> Seq<char> {
    let segs = segs_of_abs(p);
    if segs.len() == 0 {
        p
    } else {
        abs_of_segs(segs.drop_last().push(strip_ext_seg(segs.last())))
    }
}

/// The extension-tolerant equality rule on locations: two fully-extensioned
/// paths must match exactly; otherwise both are compared with any extension
/// stripped.
pub open spec fn spec_loc_eq(a: Seq<char>, b: Seq<char>) -> bool {
    if spec_has_ext(a) && spec_has_ext(b) {
        a == b
    } else {
        spec_strip_ext(a) == spec_strip_ext(b)
    }
}

/// The marker of the reserved diary directory.
pub open spec fn diary_infix() -> Seq<char> {
    seq!['/', 'd', 'i', 'a', 'r', 'y', '/']
}

/// Whether a location lies in the diary area: its path contains a `diary`
/// directory segment.
pub open spec fn spec_in_diary(p: Seq<char>) -> bool {
    exists|i: int| 0 <= i && i + 7 <= p.len() && #[trigger] p.subrange(i, i + 7) == diary_infix()
}

/// The base name of a location, extension stripped; the root has none.
pub open spec fn spec_file_name(p: Seq<char>) -> Option<Seq<char>> {
    let segs = segs_of_abs(p);
    if segs.len() == 0 {
        None
    } else {
        Some(strip_ext_seg(segs.last()))
    }
}

/// The directory containing a location.
pub open spec fn spec_parent(p: Seq<char>) -> Seq<char> {
    abs_of_segs(segs_of_abs(p).drop_last())
}

/// The length of the longest common prefix of two segment lists.
pub open spec fn common_prefix_len(a: Seq<Seq<char>>, b: Seq<Seq<char>>) -> int
    decreases a.len(),
{
    if a.len() == 0 || b.len() == 0 || a[0] != b[0] {
        0
    } else {
        1 + common_prefix_len(a.skip(1), b.skip(1))
    }
}

/// `k` segments of `..`.
pub open spec fn dotdots(k: int) -> Seq<Seq<char>> {
    if k <= 0 {
        Seq::empty()
    } else {
        Seq::new(k as nat, |i: int| seq!['.', '.'])
    }
}

/// The shortest relative path leading from the directory `base` to `path`,
/// both normalized absolute paths: `..` for every segment of `base` past the
/// common prefix, then the rest of `path`.
pub open spec fn spec_diff_abs(path: Seq<char>, base: Seq<char>) -> Seq<char> {
    let pa = segs_of_abs(path);
    let ba = segs_of_abs(base);
    let c = common_prefix_len(pa, ba);
    join_slash(dotdots(ba.len() - c) + pa.skip(c))
}

/// A captured link path with surrounding whitespace removed.
pub open spec fn trim_start(s: Seq<char>) -> Seq<char>
    decreases s.len(),
{
    if s.len() > 0 && spec_is_ws(s[0]) {
        trim_start(s.skip(1))
    } else {
        s
    }
}

pub open spec fn trim_end(s: Seq<char>) -> Seq<char>
    decreases s.len(),
{
    if s.len() > 0 && spec_is_ws(s.last()) {
        trim_end(s.drop_last())
    } else {
        s
    }
}

pub open spec fn trim_ws(s: Seq<char>) -> Seq<char> {
    trim_end(trim_start(s))
}

/// A link path without its leading separators; their presence only selects
/// the base the link resolves against.
pub open spec fn strip_leading_slashes(s: Seq<char>) -> Seq<char>
    decreases s.len(),
{
    if s.len() > 0 && s[0] == '/' {
        strip_leading_slashes(s.skip(1))
    } else {
        s
    }
}

/// A normalized path is the absolute form of its own segments.
pub proof fn lemma_clean_abs_decomp(p: Seq<char>)
    requires
        is_clean_abs(p),
    ensures
        p == abs_of_segs(segs_of_abs(p)),
{
    if p.len() == 1 {
        assert(p =~= seq!['/']);
        assert(abs_of_segs(segs_of_abs(p)) =~= seq!['/']);
    } else {
        lemma_join_split(p.skip(1));
        assert(abs_of_segs(segs_of_abs(p)) =~= seq!['/'] + p.skip(1));
        assert(seq!['/'] + p.skip(1) =~= p);
    }
}

/// A path without an extension is unchanged by extension stripping.
pub proof fn lemma_strip_ext_noext(p: Seq<char>)
    requires
        is_clean_abs(p),
        !spec_has_ext(p),
    ensures
        spec_strip_ext(p) == p,
{
    let segs = segs_of_abs(p);
    if segs.len() > 0 {
        assert(strip_ext_seg(segs.last()) == segs.last());
        assert(segs.drop_last().push(segs.last()) =~= segs);
        lemma_clean_abs_decomp(p);
    }
}

/// A location in the diary area is not the bare root, so it has a file name.
pub proof fn lemma_in_diary_has_name(p: Seq<char>)
    requires
        is_clean_abs(p),
        spec_in_diary(p),
    ensures
        segs_of_abs(p).len() >= 1,
        spec_file_name(p) is Some,
{
    assert(p.len() >= 7);
    lemma_split_len(p.skip(1));
}

pub proof fn lemma_common_prefix(a: Seq<Seq<char>>, b: Seq<Seq<char>>)
    ensures
        0 <= common_prefix_len(a, b) <= a.len(),
        common_prefix_len(a, b) <= b.len(),
        forall|j: int| 0 <= j < common_prefix_len(a, b) ==> a[j] == b[j],
    decreases a.len(),
{
    if a.len() == 0 || b.len() == 0 || a[0] != b[0] {
    } else {
        lemma_common_prefix(a.skip(1), b.skip(1));
        let c = common_prefix_len(a, b);
        assert forall|j: int| 0 <= j < c implies a[j] == b[j] by {
            if j > 0 {
                assert(a.skip(1)[j - 1] == b.skip(1)[j - 1]);
            }
        }
    }
}

/// Valid segments appended to a segment list survive cleaning unchanged.
pub proof fn lemma_clean_valid_push(x: Seq<Seq<char>>, v: Seq<Seq<char>>)
    requires
        all_valid_segs(v),
    ensures
        clean_segments(x + v) == clean_segments(x) + v,
    decreases v.len(),
{
    if v.len() == 0 {
        assert(x + v =~= x);
        assert(clean_segments(x) + v =~= clean_segments(x));
    } else {
        assert(all_valid_segs(v.drop_last()));
        lemma_clean_valid_push(x, v.drop_last());
        assert((x + v).drop_last() =~= x + v.drop_last());
        assert((x + v).last() == v.last());
        assert(valid_seg(v.last()));
        assert(clean_segments(x + v) == clean_step(clean_segments(x) + v.drop_last(), v.last()));
        assert(clean_segments(x + v) =~= clean_segments(x) + v);
    }
}

/// Each `..` appended to a list of valid segments removes one segment from
/// its end.
pub proof fn lemma_clean_dotdots(a: Seq<Seq<char>>, k: int)
    requires
        all_valid_segs(a),
        0 <= k <= a.len(),
    ensures
        clean_segments(a + dotdots(k)) == a.take(a.len() - k),
    decreases k,
{
    if k == 0 {
        assert(a + dotdots(0) =~= a);
        lemma_clean_fixed(a);
        assert(a.take(a.len() as int) =~= a);
    } else {
        lemma_clean_dotdots(a, k - 1);
        assert((a + dotdots(k)).drop_last() =~= a + dotdots(k - 1));
        assert((a + dotdots(k)).last() =~= seq!['.', '.']);
        assert(clean_segments(a + dotdots(k)) == clean_step(
            a.take(a.len() - (k - 1)),
            (a + dotdots(k)).last(),
        ));
        assert(a.take(a.len() - (k - 1)).drop_last() =~= a.take(a.len() - k));
    }
}

/// Joined segments begin with the first segment's first character.
pub proof fn lemma_join_first(segs: Seq<Seq<char>>)
    requires
        segs.len() >= 1,
        segs[0].len() > 0,
    ensures
        join_slash(segs).len() > 0,
        join_slash(segs)[0] == segs[0][0],
{
    if segs.len() == 1 {
    } else {
        assert(join_slash(segs) == segs[0] + seq!['/'] + join_slash(segs.skip(1)));
        assert(join_slash(segs)[0] == segs[0][0]);
    }
}

/// Stripping leading separators does nothing to a string that has none.
pub proof fn lemma_strip_leading_noop(s: Seq<char>)
    requires
        s.len() == 0 || s[0] != '/',
    ensures
        strip_leading_slashes(s) == s,
{
}

/// The parent of a normalized file path is normalized, and its segments are
/// the path's segments but the last.
pub proof fn lemma_parent_clean(p: Seq<char>)
    requires
        is_clean_abs(p),
        segs_of_abs(p).len() >= 1,
    ensures
        is_clean_abs(spec_parent(p)),
        segs_of_abs(spec_parent(p)) == segs_of_abs(p).drop_last(),
{
    assert(all_valid_segs(segs_of_abs(p).drop_last()));
    lemma_abs_segs_roundtrip(segs_of_abs(p).drop_last());
}

/// Cleaning is the identity on already-normalized paths.
pub proof fn lemma_clean_abs_idem(s: Seq<char>)
    requires
        is_clean_abs(s),
    ensures
        spec_clean_abs(s) == s,
{
    if s.len() == 1 {
        assert(s =~= seq!['/']);
        assert(s.skip(1) =~= Seq::<char>::empty());
        assert(split_slash(s.skip(1)) =~= seq![Seq::<char>::empty()]);
        let segs = split_slash(s.skip(1));
        assert(segs.drop_last() =~= Seq::<Seq<char>>::empty());
        assert(segs.last() =~= Seq::<char>::empty());
        assert(clean_segments(segs) == clean_step(clean_segments(segs.drop_last()), segs.last()));
        assert(clean_segments(segs) =~= Seq::<Seq<char>>::empty());
        assert(spec_clean_abs(s) =~= s);
    } else {
        lemma_clean_fixed(segs_of_abs(s));
        lemma_join_split(s.skip(1));
        assert(spec_clean_abs(s) == abs_of_segs(segs_of_abs(s)));
        assert(abs_of_segs(segs_of_abs(s)) =~= seq!['/'] + s.skip(1));
        assert(seq!['/'] + s.skip(1) =~= s);
    }
}

} // verus!
