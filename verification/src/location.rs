//! Locations: normalized absolute paths inside the wiki tree, built by
//! lexical cleaning, compared with extension tolerance.
use vstd::prelude::*;
use vstd::string::StrSliceExecFns;
use vstd::string::StringExecFns;

use crate::paths::{
    abs_of_segs, all_valid_segs, ext_idx, diary_infix, is_abs_str, is_clean_abs,
    lemma_clean_abs_wf, lemma_join_push, lemma_split_concat, lemma_split_single, segs_of_abs,
    spec_clean_abs, spec_diff_abs, spec_file_name, spec_has_ext, spec_in_diary, spec_loc_eq,
    spec_strip_ext, split_slash, strip_ext_seg, valid_seg,
};

verus! {

/// The character-sequence views of a list of segment strings.
pub open spec fn str_views(v: Seq<String>) -> Seq<Seq<char>> {
    v.map_values(|s: String| s@)
}

/// Relies on `path_clean::clean`: lexical normalization of a path following
/// the Plan 9 `cleanname` rules.  On a rooted path it collapses repeated
/// separators, drops `.` segments, resolves each `..` against the segment
/// before it and drops `..` at the root, without touching the filesystem.
#[verifier::external_body]
fn clean_abs(s: &str) -> (r: String)
    requires
        is_abs_str(s@),
    ensures
        r@ == spec_clean_abs(s@),
{
    path_clean::clean(s).to_string_lossy().into_owned()
}

/// Relies on `pathdiff::diff_paths`: for two absolute paths it strips their
/// common prefix of components and returns `..` for every remaining
/// component of the base followed by the remaining components of the target,
/// joined with separators; for two normalized absolute paths this always
/// succeeds.
#[verifier::external_body]
pub(crate) fn rel_path(path: &str, base: &str) -> (r: Option<String>)
    requires
        is_clean_abs(path@),
        is_clean_abs(base@),
    ensures
        r is Some,
        r matches Some(s) ==> s@ == spec_diff_abs(path@, base@),
{
    pathdiff::diff_paths(path, base).map(|p| p.to_string_lossy().into_owned())
}

/// Split a string at every `/`, as [`split_slash`] does.
fn split_exec(s: &str) -> (v: Vec<String>)
    ensures
        str_views(v@) == split_slash(s@),
{
    let n = s.unicode_len();
    let mut v: Vec<String> = Vec::new();
    let mut cur: String = String::new();
    let mut i: usize = 0;
    proof {
        assert(cur@ + s@.skip(0) =~= s@);
        assert(str_views(v@) =~= Seq::<Seq<char>>::empty());
        assert(str_views(v@) + split_slash(cur@ + s@.skip(0)) =~= split_slash(s@));
    }
    while i < n
        invariant
            i <= n,
            n == s@.len(),
            !cur@.contains('/'),
            split_slash(s@) == str_views(v@) + split_slash(cur@ + s@.skip(i as int)),
        decreases n - i,
    {
        let c = s.get_char(i);
        if c == '/' {
            proof {
                lemma_split_concat(cur@, s@.skip(i as int + 1));
                lemma_split_single(cur@);
                assert(cur@ + s@.skip(i as int) =~= cur@ + seq!['/'] + s@.skip(i as int + 1));
                assert(split_slash(cur@ + s@.skip(i as int)) == seq![cur@] + split_slash(
                    s@.skip(i as int + 1),
                ));
            }
            let ghost old_views = str_views(v@);
            let ghost cur_view = cur@;
            v.push(cur);
            cur = String::new();
            proof {
                assert(str_views(v@) =~= old_views.push(cur_view));
                assert(str_views(v@) + split_slash(cur@ + s@.skip(i as int + 1)) =~= old_views + (
                seq![cur_view] + split_slash(s@.skip(i as int + 1))));
                assert(cur@ + s@.skip(i as int + 1) =~= s@.skip(i as int + 1));
            }
        } else {
            let ghost prev = cur@;
            let piece = s.substring_char(i, i + 1);
            cur.append(piece);
            proof {
                assert(cur@ + s@.skip(i as int + 1) =~= prev + s@.skip(i as int));
                assert(!cur@.contains('/')) by {
                    assert forall|j: int| 0 <= j < cur@.len() implies cur@[j] != '/' by {
                        if j < prev.len() {
                            assert(cur@[j] == prev[j]);
                            assert(!prev.contains('/'));
                        } else {
                            assert(cur@[j] == s@[i as int]);
                        }
                    }
                }
            }
        }
        i += 1;
    }
    proof {
        lemma_split_single(cur@);
        assert(cur@ + s@.skip(i as int) =~= cur@);
    }
    let ghost old_views = str_views(v@);
    let ghost cur_view = cur@;
    v.push(cur);
    proof {
        assert(str_views(v@) =~= old_views.push(cur_view));
        assert(str_views(v@) =~= old_views + seq![cur_view]);
    }
    v
}

/// Rebuild the absolute path string of a segment list.
fn abs_of_segs_exec(segs: &Vec<String>) -> (r: String)
    ensures
        r@ == abs_of_segs(str_views(segs@)),
{
    proof {
        reveal_strlit("/");
    }
    let mut out = String::from_str("/");
    let mut i: usize = 0;
    while i < segs.len()
        invariant
            i <= segs.len(),
            out@ == abs_of_segs(str_views(segs@).take(i as int)),
        decreases segs.len() - i,
    {
        proof {
            reveal_strlit("/");
            lemma_join_push(str_views(segs@).take(i as int), segs@[i as int]@);
            assert(str_views(segs@).take(i as int).push(segs@[i as int]@) =~= str_views(
                segs@,
            ).take(i as int + 1));
        }
        if i > 0 {
            out.append("/");
        }
        out.append(segs[i].as_str());
        proof {
            assert(out@ =~= abs_of_segs(str_views(segs@).take(i as int + 1)));
        }
        i += 1;
    }
    proof {
        assert(str_views(segs@).take(segs@.len() as int) =~= str_views(segs@));
    }
    out
}

/// The index where the extension of a file name starts, if it has one.
fn ext_idx_exec(seg: &str) -> (r: Option<usize>)
    ensures
        r matches Some(i) ==> ext_idx(seg@) == i as int && 1 <= i < seg@.len(),
        r is None ==> ext_idx(seg@) == -1,
{
    let n = seg.unicode_len();
    let mut k: usize = n;
    proof {
        assert(seg@.take(n as int) =~= seg@);
    }
    while k > 1
        invariant
            k <= n,
            n == seg@.len(),
            ext_idx(seg@) == ext_idx(seg@.take(k as int)),
        decreases k,
    {
        if seg.get_char(k - 1) == '.' {
            proof {
                assert(seg@.take(k as int).last() == seg@[k as int - 1]);
            }
            return Some(k - 1);
        }
        proof {
            assert(seg@.take(k as int).drop_last() =~= seg@.take(k as int - 1));
        }
        k -= 1;
    }
    None
}

/// A normalized, absolute filesystem path within the wiki tree: separators
/// are canonicalized and `.`/`..` segments are resolved away when it is
/// built, and it is immutable afterwards.  Two locations are compared with
/// the extension-tolerant rule: paths that both carry an extension must
/// match exactly, otherwise both are compared with extensions stripped.
pub struct AbsolutePath {
    path: String,
    segs: Vec<String>,
}

impl View for AbsolutePath {
    type V = Seq<char>;

    closed spec fn view(&self) -> Seq<char> {
        self.path@
    }
}

impl AbsolutePath {
    /// Every location is a normalized absolute path, and the stored
    /// segments are exactly the path's segments.
    #[verifier::type_invariant]
    pub closed spec fn inv(self) -> bool {
        is_clean_abs(self.path@) && str_views(self.segs@) == segs_of_abs(self.path@)
    }

    /// A location's invariant says in particular that its path is a
    /// normalized absolute path.
    pub proof fn lemma_inv_clean(self)
        requires
            self.inv(),
        ensures
            is_clean_abs(self@),
    {
    }

    /// Build a location from an absolute path string by lexical
    /// normalization.  An already-normalized path comes back unchanged.
    pub fn new(path: &str) -> (r: AbsolutePath)
        requires
            is_abs_str(path@),
        ensures
            r@ == spec_clean_abs(path@),
            is_clean_abs(r@),
            is_clean_abs(path@) ==> r@ == path@,
    {
        proof {
            lemma_clean_abs_wf(path@);
            if is_clean_abs(path@) {
                crate::paths::lemma_clean_abs_idem(path@);
            }
        }
        let cleaned = clean_abs(path);
        let n = cleaned.as_str().unicode_len();
        let segs: Vec<String> = if n <= 1 {
            Vec::new()
        } else {
            let tail = cleaned.as_str().substring_char(1, n);
            proof {
                assert(tail@ =~= cleaned@.skip(1));
            }
            split_exec(tail)
        };
        proof {
            if n <= 1 {
                assert(str_views(Seq::<String>::empty()) =~= segs_of_abs(cleaned@));
            }
        }
        AbsolutePath { path: cleaned, segs }
    }

    /// Whether the location lies in the reserved diary area, i.e. its path
    /// contains a `diary` directory segment.
    pub fn is_in_diary(&self) -> (r: bool)
        ensures
            r == spec_in_diary(self@),
    {
        let s = self.path.as_str();
        let n = s.unicode_len();
        if n < 7 {
            proof {
                assert(!spec_in_diary(self@));
            }
            return false;
        }
        let mut i: usize = 0;
        while i <= n - 7
            invariant
                n == self@.len(),
                7 <= n,
                i <= n - 6,
                s@ == self@,
                forall|k: int| 0 <= k < i ==> #[trigger] self@.subrange(k, k + 7) != diary_infix(),
            decreases n - i,
        {
            if s.get_char(i) == '/' && s.get_char(i + 1) == 'd' && s.get_char(i + 2) == 'i'
                && s.get_char(i + 3) == 'a' && s.get_char(i + 4) == 'r' && s.get_char(i + 5) == 'y'
                && s.get_char(i + 6) == '/' {
                proof {
                    assert(self@.subrange(i as int, i as int + 7) =~= diary_infix());
                }
                return true;
            }
            proof {
                assert(self@.subrange(i as int, i as int + 7) != diary_infix()) by {
                    if self@.subrange(i as int, i as int + 7) == diary_infix() {
                        assert(self@.subrange(i as int, i as int + 7)[0] == self@[i as int]);
                        assert(self@.subrange(i as int, i as int + 7)[1] == self@[i as int + 1]);
                        assert(self@.subrange(i as int, i as int + 7)[2] == self@[i as int + 2]);
                        assert(self@.subrange(i as int, i as int + 7)[3] == self@[i as int + 3]);
                        assert(self@.subrange(i as int, i as int + 7)[4] == self@[i as int + 4]);
                        assert(self@.subrange(i as int, i as int + 7)[5] == self@[i as int + 5]);
                        assert(self@.subrange(i as int, i as int + 7)[6] == self@[i as int + 6]);
                    }
                }
            }
            i += 1;
        }
        proof {
            assert forall|k: int| !(0 <= k && k + 7 <= self@.len() && #[trigger] self@.subrange(
                k,
                k + 7,
            ) == diary_infix()) by {
                if 0 <= k && k + 7 <= self@.len() {
                    assert(k < i);
                }
            }
        }
        false
    }

    /// The normalized path string.
    pub fn get_path(&self) -> (r: &String)
        ensures
            r@ == self@,
    {
        &self.path
    }

    /// Whether the location names a file below the root, so that its parent
    /// directory exists.
    pub fn has_parent(&self) -> (r: bool)
        ensures
            r == (segs_of_abs(self@).len() >= 1),
    {
        proof {
            use_type_invariant(self);
        }
        self.segs.len() >= 1
    }

    /// The base name of the location without its extension; the bare root
    /// has none.
    pub fn get_file_name(&self) -> (r: Option<String>)
        ensures
            r matches Some(s) ==> spec_file_name(self@) == Some(s@),
            r is None <==> spec_file_name(self@) is None,
    {
        proof {
            use_type_invariant(self);
        }
        if self.segs.len() == 0 {
            return None;
        }
        let last = &self.segs[self.segs.len() - 1];
        proof {
            assert(last@ == segs_of_abs(self@).last());
        }
        Some(strip_seg_exec(last))
    }

    /// Whether the final segment carries a file extension.
    fn has_ext(&self) -> (r: bool)
        ensures
            r == spec_has_ext(self@),
    {
        proof {
            use_type_invariant(self);
        }
        if self.segs.len() == 0 {
            return false;
        }
        let last = &self.segs[self.segs.len() - 1];
        proof {
            assert(last@ == segs_of_abs(self@).last());
        }
        match ext_idx_exec(last.as_str()) {
            Some(_) => true,
            None => false,
        }
    }

    /// The directory containing the location.
    pub(crate) fn parent_string(&self) -> (r: String)
        requires
            segs_of_abs(self@).len() >= 1,
        ensures
            r@ == crate::paths::spec_parent(self@),
            is_clean_abs(r@),
    {
        proof {
            use_type_invariant(self);
        }
        let n = self.segs.len();
        let mut v: Vec<String> = Vec::new();
        let mut i: usize = 0;
        while i < n - 1
            invariant
                n == self.segs.len(),
                n >= 1,
                i <= n - 1,
                str_views(v@) == str_views(self.segs@).take(i as int),
            decreases n - i,
        {
            let ghost before = str_views(v@);
            v.push(self.segs[i].clone());
            proof {
                assert(str_views(v@) =~= before.push(self.segs@[i as int]@));
                assert(str_views(v@) =~= str_views(self.segs@).take(i as int + 1));
            }
            i += 1;
        }
        proof {
            assert(str_views(v@) =~= segs_of_abs(self@).drop_last());
            assert(all_valid_segs(segs_of_abs(self@).drop_last()));
            crate::paths::lemma_abs_segs_roundtrip(segs_of_abs(self@).drop_last());
        }
        abs_of_segs_exec(&v)
    }

    /// The path with its extension stripped, when that is again a
    /// normalized path; stripping can leave a bare `.` or `..` name, which
    /// is not.
    pub(crate) fn stripped_clean(&self) -> (r: Option<String>)
        ensures
            r is Some <==> is_clean_abs(spec_strip_ext(self@)),
            r matches Some(s) ==> s@ == spec_strip_ext(self@),
    {
        proof {
            use_type_invariant(self);
        }
        if self.segs.len() == 0 {
            return Some(self.path.clone());
        }
        let n = self.segs.len();
        let last = &self.segs[n - 1];
        proof {
            assert(last@ == segs_of_abs(self@).last());
        }
        let stripped = strip_seg_exec(last);
        let ghost new_segs = segs_of_abs(self@).drop_last().push(strip_ext_seg(last@));
        proof {
            assert(valid_seg(last@));
            crate::paths::lemma_ext_idx(last@);
            assert(strip_ext_seg(last@).len() > 0);
            assert(!strip_ext_seg(last@).contains('/')) by {
                assert forall|j: int|
                    0 <= j < strip_ext_seg(last@).len() implies strip_ext_seg(last@)[j]
                    != '/' by {
                    assert(strip_ext_seg(last@)[j] == last@[j]);
                    assert(!last@.contains('/'));
                }
            }
            assert(forall|i: int|
                0 <= i < new_segs.len() ==> !(#[trigger] new_segs[i]).contains('/'));
            assert(crate::paths::join_slash(new_segs).len() > 0) by {
                if new_segs.len() == 1 {
                    assert(crate::paths::join_slash(new_segs) == new_segs[0]);
                    assert(new_segs[0] == strip_ext_seg(last@));
                } else {
                    assert(crate::paths::join_slash(new_segs) == new_segs[0] + seq!['/']
                        + crate::paths::join_slash(new_segs.skip(1)));
                }
            }
            crate::paths::lemma_abs_segs_inverse(new_segs);
        }
        if seg_is_dotty(stripped.as_str()) {
            proof {
                assert(!valid_seg(new_segs.last()));
                assert(!is_clean_abs(spec_strip_ext(self@)));
            }
            None
        } else {
            proof {
                assert(valid_seg(new_segs.last()));
                assert(all_valid_segs(new_segs)) by {
                    assert(forall|i: int|
                        0 <= i < new_segs.len() - 1 ==> #[trigger] new_segs[i] == segs_of_abs(
                            self@,
                        ).drop_last()[i]);
                }
                crate::paths::lemma_abs_segs_roundtrip(new_segs);
            }
            Some(self.strip_ext_string())
        }
    }

    /// The path string with the extension of its final segment removed.
    pub(crate) fn strip_ext_string(&self) -> (r: String)
        ensures
            r@ == spec_strip_ext(self@),
    {
        proof {
            use_type_invariant(self);
        }
        if self.segs.len() == 0 {
            return self.path.clone();
        }
        let mut v: Vec<String> = Vec::new();
        let n = self.segs.len();
        let mut i: usize = 0;
        while i < n - 1
            invariant
                n == self.segs.len(),
                n >= 1,
                i <= n - 1,
                str_views(v@) == str_views(self.segs@).take(i as int),
            decreases n - i,
        {
            let ghost before = str_views(v@);
            v.push(self.segs[i].clone());
            proof {
                assert(str_views(v@) =~= before.push(self.segs@[i as int]@));
                assert(str_views(v@) =~= str_views(self.segs@).take(i as int + 1));
            }
            i += 1;
        }
        let last = &self.segs[n - 1];
        proof {
            assert(last@ == segs_of_abs(self@).last());
        }
        let stripped = strip_seg_exec(last);
        let ghost before = str_views(v@);
        v.push(stripped);
        proof {
            assert(str_views(v@) =~= before.push(strip_ext_seg(segs_of_abs(self@).last())));
            assert(str_views(self.segs@).take((n - 1) as int) =~= segs_of_abs(self@).drop_last());
        }
        abs_of_segs_exec(&v)
    }
}

/// Whether a stripped file name is a bare `.` or `..`.
fn seg_is_dotty(seg: &str) -> (r: bool)
    ensures
        r == (seg@ == seq!['.'] || seg@ == seq!['.', '.']),
{
    let n = seg.unicode_len();
    if n == 1 && seg.get_char(0) == '.' {
        proof {
            assert(seg@ =~= seq!['.']);
        }
        true
    } else if n == 2 && seg.get_char(0) == '.' && seg.get_char(1) == '.' {
        proof {
            assert(seg@ =~= seq!['.', '.']);
        }
        true
    } else {
        proof {
            assert(seg@ != seq!['.']) by {
                if seg@ == seq!['.'] {
                    assert(seg@.len() == 1);
                    assert(seg@[0] == '.');
                }
            }
            assert(seg@ != seq!['.', '.']) by {
                if seg@ == seq!['.', '.'] {
                    assert(seg@.len() == 2);
                    assert(seg@[0] == '.');
                    assert(seg@[1] == '.');
                }
            }
        }
        false
    }
}

/// A file-name segment with its extension removed.
fn strip_seg_exec(seg: &String) -> (r: String)
    ensures
        r@ == strip_ext_seg(seg@),
{
    match ext_idx_exec(seg.as_str()) {
        Some(i) => {
            let r = String::from_str(seg.as_str().substring_char(0, i));
            proof {
                assert(seg@.take(i as int) =~= seg@.subrange(0, i as int));
            }
            r
        },
        None => seg.clone(),
    }
}

impl PartialEq for AbsolutePath {
    /// The extension-tolerant equality rule on locations.
    fn eq(&self, other: &Self) -> (r: bool) {
        if self.has_ext() && other.has_ext() {
            self.path == other.path
        } else {
            let a = self.strip_ext_string();
            let b = other.strip_ext_string();
            a == b
        }
    }
}

impl vstd::std_specs::cmp::PartialEqSpecImpl for AbsolutePath {
    open spec fn obeys_eq_spec() -> bool {
        true
    }

    open spec fn eq_spec(&self, other: &Self) -> bool {
        spec_loc_eq(self@, other@)
    }
}

} // verus!
