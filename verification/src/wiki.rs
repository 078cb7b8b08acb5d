//! The rewrite engine: resolves each recognized link against the wiki
//! context, decides whether it refers to the file being renamed, and
//! rewrites the link text to point at the new location while leaving
//! delimiters, descriptions and anchors unchanged.
use vstd::prelude::*;
use vstd::string::StrSliceExecFns;
use vstd::string::StringExecFns;

use crate::link::{
    find_from, find_link, lemma_find_from, lemma_match_wf, lm_matches, prefix_text, prefix_word,
    str_eq, try_match_at, Link, LinkMatch, LinkPrefix, Notation, SpecMatch,
};
use crate::location::AbsolutePath;
use crate::paths::{
    is_abs_str, is_clean_abs, segs_of_abs, spec_clean_abs, spec_diff_abs, spec_file_name,
    spec_in_diary, spec_loc_eq, spec_parent, spec_strip_ext, strip_leading_slashes, trim_ws,
};

verus! {

/// The character sequence a recognized namespace marker stands for.
pub open spec fn prefix_view_of(p: Option<LinkPrefix>) -> Option<Seq<char>> {
    match p {
        Some(x) => Some(prefix_word(x)),
        None => None,
    }
}

/// Where a link with the given prefix and (trimmed) path points, resolved
/// against the wiki root and the document's own location: a `diary` prefix
/// resolves under the reserved diary directory, a leading `/` resolves
/// against the wiki root, anything else against the directory containing the
/// current document.
pub open spec fn spec_resolve(
    prefix: Option<Seq<char>>,
    path: Seq<char>,
    root: Seq<char>,
    cpath: Seq<char>,
) -> Seq<char> {
    let p2 = strip_leading_slashes(path);
    let base = if prefix == Some(prefix_word(LinkPrefix::Diary)) {
        root + seq!['/'] + prefix_word(LinkPrefix::Diary)
    } else if path.len() > 0 && path[0] == '/' {
        root
    } else {
        spec_parent(cpath)
    };
    spec_clean_abs(base + seq!['/'] + p2)
}

/// The new path text written in place of a link that resolves to the
/// renamed file.  A target inside the diary area is always written as
/// `diary:` plus its bare base name; any other target is written relative
/// to the directory of the current document, keeping a non-`diary` prefix.
/// Where no replacement can be computed, nothing is returned, and the
/// engine leaves the matched text exactly as it was.
pub open spec fn spec_replacement(
    pfx: Option<LinkPrefix>,
    root: Seq<char>,
    cpath: Seq<char>,
    to: Seq<char>,
) -> Option<Seq<char>> {
    if spec_in_diary(to) {
        match spec_file_name(to) {
            Some(name) => Some(prefix_text(LinkPrefix::Diary) + name),
            None => None,
        }
    } else {
        if is_clean_abs(spec_strip_ext(to)) {
            let rel = spec_diff_abs(spec_strip_ext(to), spec_parent(cpath));
            match pfx {
                Some(p) => if p == LinkPrefix::Diary {
                    Some(rel)
                } else {
                    Some(prefix_text(p) + rel)
                },
                None => Some(rel),
            }
        } else {
            None
        }
    }
}

/// A right delimiter that begins directly with the description separator
/// gets one space before it; anything else is reproduced verbatim.
pub open spec fn spec_right_adjust(right: Seq<char>) -> Seq<char> {
    if right.len() > 0 && right[0] == '|' {
        seq![' '] + right
    } else {
        right
    }
}

/// What one recognized match contributes to the output: if its path is
/// non-empty once trimmed, resolves to the renamed file, and a replacement
/// can be computed, the left delimiter, the replacement path and the
/// adjusted right delimiter; in every other case the matched text verbatim,
/// byte for byte.  An empty path never triggers replacement, even where
/// the directory it resolves to would equal `from` under the
/// extension-tolerant rule.
pub open spec fn spec_chunk(
    t: Seq<char>,
    m: SpecMatch,
    root: Seq<char>,
    cpath: Seq<char>,
    from: Seq<char>,
    to: Seq<char>,
) -> Seq<char> {
    let trimmed = trim_ws(t.subrange(m.path_start, m.path_end));
    let loc = spec_resolve(prefix_view_of(m.prefix), trimmed, root, cpath);
    if trimmed.len() > 0 && spec_loc_eq(loc, from) {
        match spec_replacement(m.prefix, root, cpath, to) {
            Some(repl) => t.subrange(m.start, m.left_end) + repl + spec_right_adjust(
                t.subrange(m.path_end, m.end),
            ),
            None => t.subrange(m.start, m.end),
        }
    } else {
        t.subrange(m.start, m.end)
    }
}

/// One notation pass over the text from position `i`: every match is
/// replaced by its chunk, the text between matches is copied through.
pub open spec fn spec_pass(
    t: Seq<char>,
    i: int,
    n: Notation,
    root: Seq<char>,
    cpath: Seq<char>,
    from: Seq<char>,
    to: Seq<char>,
) -> Seq<char>
    decreases t.len() - i,
{
    if i < 0 || i > t.len() {
        Seq::empty()
    } else {
        match find_from(t, i, n) {
            None => t.subrange(i, t.len() as int),
            Some(m) => {
                if i <= m.start && m.start < m.end && m.end <= t.len() {
                    t.subrange(i, m.start) + spec_chunk(t, m, root, cpath, from, to) + spec_pass(
                        t,
                        m.end,
                        n,
                        root,
                        cpath,
                        from,
                        to,
                    )
                } else {
                    t.subrange(i, t.len() as int)
                }
            },
        }
    }
}

/// The whole rewrite: the Markdown-style pass, then the wiki-link pass over
/// its result, then the transclusion pass over that.
pub open spec fn spec_replace_links(
    t: Seq<char>,
    root: Seq<char>,
    cpath: Seq<char>,
    from: Seq<char>,
    to: Seq<char>,
) -> Seq<char> {
    let a = spec_pass(t, 0, Notation::Markdown, root, cpath, from, to);
    let b = spec_pass(a, 0, Notation::WikiLink, root, cpath, from, to);
    spec_pass(b, 0, Notation::Transclusion, root, cpath, from, to)
}

/// A link path with its leading separators removed.
fn strip_slashes_exec(s: &str) -> (r: String)
    ensures
        r@ == strip_leading_slashes(s@),
{
    let n = s.unicode_len();
    let mut a: usize = 0;
    proof {
        assert(s@.skip(0) =~= s@);
    }
    while a < n && s.get_char(a) == '/'
        invariant
            a <= n,
            n == s@.len(),
            strip_leading_slashes(s@) == strip_leading_slashes(s@.skip(a as int)),
        decreases n - a,
    {
        proof {
            assert(s@.skip(a as int)[0] == s@[a as int]);
            assert(s@.skip(a as int).skip(1) =~= s@.skip(a as int + 1));
        }
        a += 1;
    }
    proof {
        if a < n {
            assert(s@.skip(a as int)[0] == s@[a as int]);
        }
        assert(strip_leading_slashes(s@) == s@.skip(a as int));
    }
    String::from_str(s.substring_char(a, n))
}

/// The frame of reference for one document's rewrite: the wiki root and the
/// location of the document being processed, which must be a file below the
/// root (its parent directory must exist).
pub struct Wiki {
    wiki_root: AbsolutePath,
    content_path: AbsolutePath,
}

impl Wiki {
    #[verifier::type_invariant]
    spec fn wiki_inv(self) -> bool {
        segs_of_abs(self.content_path@).len() >= 1
    }

    /// The wiki root's path.
    pub closed spec fn root_view(&self) -> Seq<char> {
        self.wiki_root@
    }

    /// The current document's path.
    pub closed spec fn content_view(&self) -> Seq<char> {
        self.content_path@
    }

    /// Pair a wiki root with the document being processed.  The document
    /// must be a file, not the root of the filesystem itself.
    pub fn new(wiki_root: AbsolutePath, content_path: AbsolutePath) -> (r: Wiki)
        requires
            segs_of_abs(content_path@).len() >= 1,
        ensures
            r.root_view() == wiki_root@,
            r.content_view() == content_path@,
    {
        Wiki { wiki_root, content_path }
    }

    /// Resolve a captured link to the location it denotes.
    pub fn get_absolute_path(&self, link: &Link) -> (r: AbsolutePath)
        ensures
            r@ == spec_resolve(
                link.prefix_view(),
                link.path_view(),
                self.root_view(),
                self.content_view(),
            ),
            is_clean_abs(r@),
    {
        proof {
            use_type_invariant(self);
            use_type_invariant(&self.wiki_root);
            self.wiki_root.lemma_inv_clean();
            use_type_invariant(&self.content_path);
            self.content_path.lemma_inv_clean();
            link.lemma_views();
        }
        let is_diary = match &link.prefix {
            Some(p) => {
                proof {
                    reveal_strlit("diary");
                    assert("diary"@ =~= prefix_word(LinkPrefix::Diary));
                }
                str_eq(p.as_str(), "diary")
            },
            None => false,
        };
        let path_s = link.path.as_str();
        let path_len = path_s.unicode_len();
        let starts_slash = path_len > 0 && path_s.get_char(0) == '/';
        let mut base: String = if is_diary {
            proof {
                reveal_strlit("/diary");
            }
            let mut b = self.wiki_root.get_path().clone();
            b.append("/diary");
            proof {
                assert("/diary"@ =~= seq!['/'] + prefix_word(LinkPrefix::Diary));
                assert(b@ =~= self.root_view() + seq!['/'] + prefix_word(LinkPrefix::Diary));
            }
            b
        } else if starts_slash {
            self.wiki_root.get_path().clone()
        } else {
            self.content_path.parent_string()
        };
        let ghost base0 = base@;
        proof {
            assert(base0.len() > 0 && base0[0] == '/');
        }
        let stripped = strip_slashes_exec(path_s);
        proof {
            reveal_strlit("/");
        }
        base.append("/");
        base.append(stripped.as_str());
        proof {
            assert(base@ =~= base0 + seq!['/'] + strip_leading_slashes(link.path_view()));
            assert(is_abs_str(base@));
        }
        let r = AbsolutePath::new(base.as_str());
        r
    }

    /// The path of `to`, extension stripped, relative to the directory
    /// containing the current document.  Nothing is returned when the
    /// stripped path is no normalized location — which happens exactly when
    /// stripping the extension leaves a bare `.` or `..` as the final name
    /// (a file called `...`, say) — and the caller then leaves the link
    /// unchanged rather than write a path to a location `to` does not
    /// denote.
    pub fn get_relative_path(&self, to: &AbsolutePath) -> (r: Option<String>)
        ensures
            r is Some <==> is_clean_abs(spec_strip_ext(to@)),
            r matches Some(s) ==> s@ == spec_diff_abs(
                spec_strip_ext(to@),
                spec_parent(self.content_view()),
            ),
    {
        proof {
            use_type_invariant(self);
            use_type_invariant(&self.content_path);
            self.content_path.lemma_inv_clean();
        }
        match to.stripped_clean() {
            Some(stripped) => {
                let base = self.content_path.parent_string();
                crate::location::rel_path(stripped.as_str(), base.as_str())
            },
            None => None,
        }
    }

    /// The text written in place of a link that resolves to the renamed
    /// file, or nothing when no replacement can be computed and the match
    /// must be left as it was.
    fn compute_replacement(&self, prefix: Option<LinkPrefix>, to: &AbsolutePath) -> (r: Option<
        String,
    >)
        ensures
            r is Some <==> spec_replacement(prefix, self.root_view(), self.content_view(), to@)
                is Some,
            r matches Some(s) ==> spec_replacement(
                prefix,
                self.root_view(),
                self.content_view(),
                to@,
            ) == Some(s@),
    {
        if to.is_in_diary() {
            match to.get_file_name() {
                Some(name) => {
                    proof {
                        reveal_strlit("diary:");
                    }
                    let mut out = String::from_str("diary:");
                    out.append(name.as_str());
                    proof {
                        assert("diary:"@ =~= prefix_text(LinkPrefix::Diary));
                        assert(out@ =~= prefix_text(LinkPrefix::Diary) + name@);
                    }
                    Some(out)
                },
                None => None,
            }
        } else {
            match self.get_relative_path(to) {
                Some(rel) => {
                    match prefix {
                        Some(p) => {
                            if p == LinkPrefix::Diary {
                                Some(rel)
                            } else {
                                proof {
                                    reveal_strlit(":");
                                }
                                let mut out = p.text();
                                out.append(":");
                                out.append(rel.as_str());
                                proof {
                                    assert(out@ =~= prefix_text(p) + rel@);
                                }
                                Some(out)
                            }
                        },
                        None => Some(rel),
                    }
                },
                None => None,
            }
        }
    }

    /// One notation pass: scan the text left to right, replace every match
    /// that resolves to `from`, copy everything else through unchanged.
    #[verifier::rlimit(80)]
    fn replace_pass(
        &self,
        content: &str,
        n: Notation,
        from: &AbsolutePath,
        to: &AbsolutePath,
    ) -> (r: String)
        ensures
            r@ == spec_pass(
                content@,
                0,
                n,
                self.root_view(),
                self.content_view(),
                from@,
                to@,
            ),
    {
        let t_len = content.unicode_len();
        let mut out = String::new();
        let mut pos: usize = 0;
        loop
            invariant
                pos <= t_len,
                t_len == content@.len(),
                out@ + spec_pass(
                    content@,
                    pos as int,
                    n,
                    self.root_view(),
                    self.content_view(),
                    from@,
                    to@,
                ) == spec_pass(
                    content@,
                    0,
                    n,
                    self.root_view(),
                    self.content_view(),
                    from@,
                    to@,
                ),
            decreases t_len - pos,
        {
            let ghost root = self.root_view();
            let ghost cpath = self.content_view();
            match find_link(content, pos, n) {
                None => {
                    out.append(content.substring_char(pos, t_len));
                    proof {
                        assert(spec_pass(content@, pos as int, n, root, cpath, from@, to@)
                            == content@.subrange(pos as int, content@.len() as int));
                    }
                    return out;
                },
                Some(lm) => {
                    proof {
                        lemma_find_from(content@, pos as int, n);
                        lemma_match_wf(content@, lm.start as int, n);
                    }
                    let ghost m = find_from(content@, pos as int, n)->Some_0;
                    let ghost before_match = out@;
                    out.append(content.substring_char(pos, lm.start));
                    let link = match lm.prefix {
                        Some(p) => {
                            let w = p.text();
                            Link::new(Some(w.as_str()), lm.path.as_str())
                        },
                        None => Link::new(None, lm.path.as_str()),
                    };
                    proof {
                        assert(link.prefix_view() == prefix_view_of(m.prefix));
                        assert(link.path_view() == trim_ws(
                            content@.subrange(m.path_start, m.path_end),
                        ));
                    }
                    let loc = self.get_absolute_path(&link);
                    let path_nonempty = link.path.as_str().unicode_len() > 0;
                    proof {
                        link.lemma_views();
                    }
                    let mut rewritten = false;
                    if path_nonempty && loc == *from {
                        match self.compute_replacement(lm.prefix, to) {
                            Some(repl) => {
                                out.append(lm.left.as_str());
                                out.append(repl.as_str());
                                if lm.right.as_str().get_char(0) == '|' {
                                    proof {
                                        reveal_strlit(" ");
                                    }
                                    out.append(" ");
                                }
                                out.append(lm.right.as_str());
                                rewritten = true;
                                proof {
                                    assert(spec_right_adjust(content@.subrange(m.path_end, m.end))
                                        == if content@.subrange(m.path_end, m.end)[0] == '|' {
                                        seq![' '] + content@.subrange(m.path_end, m.end)
                                    } else {
                                        content@.subrange(m.path_end, m.end)
                                    });
                                    assert(out@ =~= before_match + content@.subrange(
                                        pos as int,
                                        m.start,
                                    ) + spec_chunk(content@, m, root, cpath, from@, to@));
                                }
                            },
                            None => {},
                        }
                    }
                    if !rewritten {
                        out.append(content.substring_char(lm.start, lm.end));
                        proof {
                            assert(out@ =~= before_match + content@.subrange(pos as int, m.start)
                                + spec_chunk(content@, m, root, cpath, from@, to@));
                        }
                    }
                    proof {
                        assert(spec_pass(content@, pos as int, n, root, cpath, from@, to@)
                            == content@.subrange(pos as int, m.start) + spec_chunk(
                            content@,
                            m,
                            root,
                            cpath,
                            from@,
                            to@,
                        ) + spec_pass(content@, m.end, n, root, cpath, from@, to@));
                        assert(before_match + (content@.subrange(pos as int, m.start) + spec_chunk(
                            content@,
                            m,
                            root,
                            cpath,
                            from@,
                            to@,
                        ) + spec_pass(content@, m.end, n, root, cpath, from@, to@)) =~= out@
                            + spec_pass(content@, m.end, n, root, cpath, from@, to@));
                    }
                    pos = lm.end;
                },
            }
        }
    }

    /// Rewrite one document: run the Markdown-style pass, the wiki-link
    /// pass, then the transclusion pass, each over the previous pass's
    /// result, and return the updated text.
    pub fn replace_links(&self, content: &str, from: &AbsolutePath, to: &AbsolutePath) -> (r:
        String)
        ensures
            r@ == spec_replace_links(
                content@,
                self.root_view(),
                self.content_view(),
                from@,
                to@,
            ),
    {
        let a = self.replace_pass(content, Notation::Markdown, from, to);
        let b = self.replace_pass(a.as_str(), Notation::WikiLink, from, to);
        let c = self.replace_pass(b.as_str(), Notation::Transclusion, from, to);
        c
    }
}

} // verus!
