//! The laws the rewrite engine obeys, stated and proved over the same
//! specification functions its contracts use.
use vstd::prelude::*;

use crate::link::{
    find_from, lemma_find_from, lemma_match_wf, prefix_text, try_match_at, LinkPrefix, Notation,
    SpecMatch,
};
use crate::paths::{
    abs_of_segs, all_valid_segs, clean_segments, common_prefix_len, dotdots, is_clean_abs,
    join_slash, lemma_clean_abs_decomp, lemma_clean_dotdots, lemma_clean_fixed,
    lemma_clean_valid_push, lemma_common_prefix, lemma_in_diary_has_name, lemma_join_first,
    lemma_parent_clean, lemma_split_concat, lemma_split_join, lemma_strip_ext_noext,
    lemma_strip_leading_noop, segs_of_abs, spec_clean_abs, spec_diff_abs, spec_file_name,
    spec_has_ext, spec_in_diary, spec_loc_eq, spec_parent, spec_strip_ext, split_slash, trim_ws,
    valid_seg,
};
use crate::wiki::{
    prefix_view_of, spec_chunk, spec_pass, spec_replace_links, spec_replacement, spec_resolve,
    spec_right_adjust,
};

verus! {

/// No link occurrence anywhere in the text, read in the given notation,
/// has a non-empty trimmed path that resolves to a location equal to
/// `from`.  Links whose trimmed path is empty never trigger replacement,
/// so they need no constraint.
pub open spec fn no_link_resolves_to(
    t: Seq<char>,
    n: Notation,
    root: Seq<char>,
    cpath: Seq<char>,
    from: Seq<char>,
) -> bool {
    forall|i: int|
        (#[trigger] try_match_at(t, i, n)) matches Some(m) ==> {
            let trimmed = trim_ws(t.subrange(m.path_start, m.path_end));
            trimmed.len() == 0 || !spec_loc_eq(
                spec_resolve(prefix_view_of(m.prefix), trimmed, root, cpath),
                from,
            )
        }
}

proof fn lemma_pass_identity(
    t: Seq<char>,
    i: int,
    n: Notation,
    root: Seq<char>,
    cpath: Seq<char>,
    from: Seq<char>,
    to: Seq<char>,
)
    requires
        0 <= i <= t.len(),
        no_link_resolves_to(t, n, root, cpath, from),
    ensures
        spec_pass(t, i, n, root, cpath, from, to) == t.subrange(i, t.len() as int),
    decreases t.len() - i,
{
    match find_from(t, i, n) {
        None => {},
        Some(m) => {
            lemma_find_from(t, i, n);
            lemma_match_wf(t, m.start, n);
            assert(try_match_at(t, m.start, n) == Some(m));
            assert(spec_chunk(t, m, root, cpath, from, to) == t.subrange(m.start, m.end));
            lemma_pass_identity(t, m.end, n, root, cpath, from, to);
            assert(t.subrange(i, m.start) + t.subrange(m.start, m.end) + t.subrange(
                m.end,
                t.len() as int,
            ) =~= t.subrange(i, t.len() as int));
        },
    }
}

/// Idempotence of non-matching links: when no link in the text, in any of
/// the three notations, resolves to a location equal to `from`, the rewrite
/// returns the text unchanged.
pub proof fn lemma_rewrite_identity(
    t: Seq<char>,
    root: Seq<char>,
    cpath: Seq<char>,
    from: Seq<char>,
    to: Seq<char>,
)
    requires
        no_link_resolves_to(t, Notation::Markdown, root, cpath, from),
        no_link_resolves_to(t, Notation::WikiLink, root, cpath, from),
        no_link_resolves_to(t, Notation::Transclusion, root, cpath, from),
    ensures
        spec_replace_links(t, root, cpath, from, to) == t,
{
    lemma_pass_identity(t, 0, Notation::Markdown, root, cpath, from, to);
    assert(spec_pass(t, 0, Notation::Markdown, root, cpath, from, to) =~= t);
    lemma_pass_identity(t, 0, Notation::WikiLink, root, cpath, from, to);
    assert(spec_pass(t, 0, Notation::WikiLink, root, cpath, from, to) =~= t);
    lemma_pass_identity(t, 0, Notation::Transclusion, root, cpath, from, to);
    assert(spec_pass(t, 0, Notation::Transclusion, root, cpath, from, to) =~= t);
}

/// Delimiter preservation: what a recognized match contributes to the
/// output is either the matched text verbatim, or the verbatim left
/// delimiter, the replacement path, and the verbatim right delimiter —
/// altered only by the single space inserted before a `|`-led right
/// delimiter.  A match whose path is empty once trimmed, or for which no
/// replacement can be computed, stays verbatim, byte for byte.
pub proof fn lemma_delimiter_preservation(
    t: Seq<char>,
    i: int,
    n: Notation,
    root: Seq<char>,
    cpath: Seq<char>,
    from: Seq<char>,
    to: Seq<char>,
)
    requires
        try_match_at(t, i, n) is Some,
    ensures
        ({
            let m = try_match_at(t, i, n)->Some_0;
            let left = t.subrange(m.start, m.left_end);
            let right = t.subrange(m.path_end, m.end);
            let trimmed = trim_ws(t.subrange(m.path_start, m.path_end));
            let resolved = spec_resolve(prefix_view_of(m.prefix), trimmed, root, cpath);
            &&& (trimmed.len() > 0 && spec_loc_eq(resolved, from) ==> (
            match spec_replacement(m.prefix, root, cpath, to) {
                Some(repl) => spec_chunk(t, m, root, cpath, from, to) == left + repl + (
                if right.len() > 0 && right[0] == '|' {
                    seq![' '] + right
                } else {
                    right
                }),
                None => spec_chunk(t, m, root, cpath, from, to) == t.subrange(m.start, m.end),
            }))
            &&& (!(trimmed.len() > 0 && spec_loc_eq(resolved, from)) ==> spec_chunk(
                t,
                m,
                root,
                cpath,
                from,
                to,
            ) == t.subrange(m.start, m.end))
        }),
{
    let m = try_match_at(t, i, n)->Some_0;
    let right = t.subrange(m.path_end, m.end);
    assert(spec_right_adjust(right) == if right.len() > 0 && right[0] == '|' {
        seq![' '] + right
    } else {
        right
    });
}

/// Diary retargeting: whatever the document, the original prefix and the
/// original path text, a link that resolves to the renamed file is
/// rewritten to `diary:` plus the bare base name of `to` whenever `to` lies
/// in the diary area.
pub proof fn lemma_diary_retarget(
    pfx: Option<LinkPrefix>,
    root: Seq<char>,
    cpath: Seq<char>,
    to: Seq<char>,
)
    requires
        is_clean_abs(to),
        spec_in_diary(to),
    ensures
        spec_replacement(pfx, root, cpath, to) == Some(
            prefix_text(LinkPrefix::Diary) + spec_file_name(to)->Some_0,
        ),
{
    lemma_in_diary_has_name(to);
}

/// Diary-to-non-diary retargeting: a `diary:` link whose target moves out
/// of the diary area is rewritten to the bare relative path, with no
/// prefix.
pub proof fn lemma_diary_prefix_dropped(root: Seq<char>, cpath: Seq<char>, to: Seq<char>)
    requires
        !spec_in_diary(to),
        is_clean_abs(spec_strip_ext(to)),
    ensures
        spec_replacement(Some(LinkPrefix::Diary), root, cpath, to) == Some(
            spec_diff_abs(spec_strip_ext(to), spec_parent(cpath)),
        ),
{
}

/// The relative path the engine writes for a non-diary target resolves, in
/// the same document, back to the target's extension-stripped location.
pub proof fn lemma_replacement_resolves_back(
    root: Seq<char>,
    cpath: Seq<char>,
    to: Seq<char>,
)
    requires
        is_clean_abs(cpath),
        segs_of_abs(cpath).len() >= 1,
        is_clean_abs(to),
        is_clean_abs(spec_strip_ext(to)),
    ensures
        spec_resolve(
            None,
            spec_diff_abs(spec_strip_ext(to), spec_parent(cpath)),
            root,
            cpath,
        ) == spec_strip_ext(to),
{
    let sp = spec_strip_ext(to);
    let pa = segs_of_abs(sp);
    let bd = spec_parent(cpath);
    lemma_parent_clean(cpath);
    let ba = segs_of_abs(bd);
    lemma_common_prefix(pa, ba);
    let c = common_prefix_len(pa, ba);
    let k = ba.len() - c;
    let relsegs = dotdots(k) + pa.skip(c);
    let rel = join_slash(relsegs);
    assert(rel == spec_diff_abs(sp, bd));
    assert(all_valid_segs(pa.skip(c))) by {
        assert(forall|j: int|
            0 <= j < pa.skip(c).len() ==> pa.skip(c)[j] == pa[j + c]);
    }
    // the relative path never begins with a separator
    assert(rel.len() == 0 || rel[0] != '/') by {
        if relsegs.len() > 0 {
            if k > 0 {
                assert(relsegs[0] =~= seq!['.', '.']);
            } else {
                assert(relsegs[0] == pa.skip(c)[0]);
                assert(valid_seg(relsegs[0]));
                assert(relsegs[0][0] != '/') by {
                    assert(!relsegs[0].contains('/'));
                }
            }
            lemma_join_first(relsegs);
        }
    }
    lemma_strip_leading_noop(rel);
    // resolving a prefixless, relative path joins it onto the document's
    // directory and cleans the result
    let joined = bd + seq!['/'] + rel;
    assert(spec_resolve(None, rel, root, cpath) == spec_clean_abs(joined));
    lemma_clean_abs_decomp(bd);
    assert(joined.skip(1) =~= join_slash(ba) + seq!['/'] + rel);
    lemma_split_concat(join_slash(ba), rel);
    // segments of the joined string: the base's, then the relative ones
    let aa: Seq<Seq<char>> = if ba.len() >= 1 {
        ba
    } else {
        seq![Seq::<char>::empty()]
    };
    let bb: Seq<Seq<char>> = if relsegs.len() >= 1 {
        relsegs
    } else {
        seq![Seq::<char>::empty()]
    };
    assert(split_slash(join_slash(ba)) == aa) by {
        if ba.len() >= 1 {
            lemma_split_join(ba);
        } else {
            assert(join_slash(ba) =~= Seq::<char>::empty());
        }
    }
    assert(split_slash(rel) == bb) by {
        if relsegs.len() >= 1 {
            assert(forall|j: int|
                0 <= j < relsegs.len() ==> !(#[trigger] relsegs[j]).contains('/')) by {
                assert forall|j: int|
                    0 <= j < relsegs.len() implies !(#[trigger] relsegs[j]).contains('/') by {
                    if j < k {
                        assert(relsegs[j] =~= seq!['.', '.']);
                        assert(!seq!['.', '.'].contains('/')) by {
                            assert(forall|x: int|
                                0 <= x < 2 ==> seq!['.', '.'][x] == '.');
                        }
                    } else {
                        assert(relsegs[j] == pa.skip(c)[j - k]);
                        assert(valid_seg(relsegs[j]));
                    }
                }
            }
            lemma_split_join(relsegs);
        } else {
            assert(rel =~= Seq::<char>::empty());
        }
    }
    assert(split_slash(joined.skip(1)) == aa + bb);
    // cleaning: `..` segments pop base segments past the common prefix,
    // then the target's remaining segments are appended
    let cleaned = clean_segments(aa + bb);
    assert(cleaned =~= pa) by {
        if ba.len() >= 1 && relsegs.len() >= 1 {
            assert(aa + bb =~= (ba + dotdots(k)) + pa.skip(c));
            lemma_clean_dotdots(ba, k);
            lemma_clean_valid_push(ba + dotdots(k), pa.skip(c));
            assert(cleaned =~= ba.take(c) + pa.skip(c));
            assert(ba.take(c) =~= pa.take(c));
            assert(pa.take(c) + pa.skip(c) =~= pa);
        } else if ba.len() >= 1 {
            // nothing relative to add: the target is the base's prefix
            assert(k == 0 && pa.skip(c).len() == 0);
            assert(c == pa.len());
            assert(pa =~= ba) by {
                assert(c == ba.len());
                assert(forall|j: int| 0 <= j < c ==> pa[j] == ba[j]);
            }
            assert(aa + bb =~= ba.push(Seq::<char>::empty()));
            assert((aa + bb).drop_last() =~= ba);
            lemma_clean_fixed(ba);
            assert(cleaned =~= ba);
        } else {
            // the document sits directly under the filesystem root
            assert(c == 0 && k == 0);
            assert(relsegs =~= pa);
            assert(clean_segments(seq![Seq::<char>::empty()]) =~= Seq::<Seq<char>>::empty())
                by {
                let e = seq![Seq::<char>::empty()];
                assert(e.drop_last() =~= Seq::<Seq<char>>::empty());
                assert(e.last() =~= Seq::<char>::empty());
                assert(e.len() == 1);
                assert(clean_segments(e) == crate::paths::clean_step(
                    clean_segments(e.drop_last()),
                    e.last(),
                ));
                assert(clean_segments(e.drop_last()) =~= Seq::<Seq<char>>::empty());
                assert(e.last().len() == 0);
                assert(e.last() != seq!['.', '.']) by {
                    assert(seq!['.', '.'].len() == 2);
                }
            }
            if relsegs.len() >= 1 {
                assert(aa + bb =~= seq![Seq::<char>::empty()] + pa);
                lemma_clean_valid_push(seq![Seq::<char>::empty()], pa);
                assert(cleaned =~= pa);
            } else {
                assert(pa.len() == 0);
                assert(aa + bb =~= seq![Seq::<char>::empty(), Seq::<char>::empty()]);
                assert((aa + bb).drop_last() =~= seq![Seq::<char>::empty()]);
                assert((aa + bb).last() =~= Seq::<char>::empty());
                assert(cleaned =~= Seq::<Seq<char>>::empty());
            }
        }
    }
    assert(spec_clean_abs(joined) == abs_of_segs(cleaned));
    lemma_clean_abs_decomp(sp);
    assert(abs_of_segs(pa) == sp);
}

/// Round trip on a no-op rename: when `from` and `to` are equal under the
/// extension-tolerant rule, a rewritten link's new path — the bare relative
/// path the engine writes for a non-diary target — resolves to a location
/// equal to `from` again.  The law asks that the stripped target be a
/// normalized path carrying no second extension; a target inside the diary
/// area is written in the diary display form instead and is not covered.
pub proof fn lemma_noop_rename_round_trip(
    root: Seq<char>,
    cpath: Seq<char>,
    from: Seq<char>,
    to: Seq<char>,
)
    requires
        is_clean_abs(cpath),
        segs_of_abs(cpath).len() >= 1,
        is_clean_abs(to),
        spec_loc_eq(from, to),
        !spec_in_diary(to),
        is_clean_abs(spec_strip_ext(to)),
        !spec_has_ext(spec_strip_ext(to)),
    ensures
        spec_replacement(None, root, cpath, to) == Some(
            spec_diff_abs(spec_strip_ext(to), spec_parent(cpath)),
        ),
        spec_loc_eq(
            spec_resolve(
                None,
                spec_replacement(None, root, cpath, to)->Some_0,
                root,
                cpath,
            ),
            from,
        ),
{
    assert(spec_replacement(None, root, cpath, to) == Some(
        spec_diff_abs(spec_strip_ext(to), spec_parent(cpath)),
    ));
    lemma_replacement_resolves_back(root, cpath, to);
    let sp = spec_strip_ext(to);
    lemma_strip_ext_noext(sp);
    assert(spec_strip_ext(from) == spec_strip_ext(to));
    assert(spec_loc_eq(sp, from));
}

/// Round trip on a no-op rename of a diary page: when the renamed file
/// keeps its identity and lies directly in the wiki root's diary directory,
/// the diary display form the engine writes — `diary:` plus the bare base
/// name — resolves to a location equal to `from` again, in any document.
pub proof fn lemma_noop_rename_round_trip_diary(
    root: Seq<char>,
    cpath: Seq<char>,
    from: Seq<char>,
    to: Seq<char>,
)
    requires
        is_clean_abs(root),
        is_clean_abs(cpath),
        segs_of_abs(cpath).len() >= 1,
        is_clean_abs(to),
        is_clean_abs(spec_strip_ext(to)),
        spec_loc_eq(from, to),
        spec_in_diary(to),
        !spec_has_ext(spec_strip_ext(to)),
        segs_of_abs(spec_strip_ext(to)) == segs_of_abs(root).push(
            crate::link::prefix_word(LinkPrefix::Diary),
        ).push(spec_file_name(to)->Some_0),
    ensures
        spec_loc_eq(
            spec_resolve(
                Some(crate::link::prefix_word(LinkPrefix::Diary)),
                spec_file_name(to)->Some_0,
                root,
                cpath,
            ),
            from,
        ),
{
    let dw = crate::link::prefix_word(LinkPrefix::Diary);
    let sp = spec_strip_ext(to);
    let nm = spec_file_name(to)->Some_0;
    let ra = segs_of_abs(root);
    let spsegs = segs_of_abs(sp);
    assert(spsegs[spsegs.len() - 1] == nm);
    assert(valid_seg(nm));
    assert(spsegs[spsegs.len() - 2] == dw);
    assert(valid_seg(dw));
    assert(nm.len() > 0);
    assert(nm[0] != '/') by {
        assert(!nm.contains('/'));
    }
    lemma_strip_leading_noop(nm);
    let joined = (root + seq!['/'] + dw) + seq!['/'] + nm;
    assert(spec_resolve(Some(dw), nm, root, cpath) == spec_clean_abs(joined));
    lemma_clean_abs_decomp(root);
    assert(joined.skip(1) =~= join_slash(ra) + seq!['/'] + (dw + seq!['/'] + nm));
    lemma_split_concat(join_slash(ra), dw + seq!['/'] + nm);
    lemma_split_concat(dw, nm);
    assert(split_slash(dw) =~= seq![dw]) by {
        crate::paths::lemma_split_single(dw);
    }
    assert(split_slash(nm) =~= seq![nm]) by {
        crate::paths::lemma_split_single(nm);
    }
    assert(split_slash(dw + seq!['/'] + nm) =~= seq![dw, nm]);
    let aa: Seq<Seq<char>> = if ra.len() >= 1 {
        ra
    } else {
        seq![Seq::<char>::empty()]
    };
    assert(split_slash(join_slash(ra)) == aa) by {
        if ra.len() >= 1 {
            lemma_split_join(ra);
        } else {
            assert(join_slash(ra) =~= Seq::<char>::empty());
        }
    }
    assert(split_slash(joined.skip(1)) =~= aa + seq![dw, nm]);
    assert(all_valid_segs(seq![dw, nm])) by {
        assert(seq![dw, nm][0] == dw);
        assert(seq![dw, nm][1] == nm);
    }
    lemma_clean_valid_push(aa, seq![dw, nm]);
    assert(clean_segments(aa) == ra) by {
        if ra.len() >= 1 {
            lemma_clean_fixed(ra);
        } else {
            let e = seq![Seq::<char>::empty()];
            assert(e.drop_last() =~= Seq::<Seq<char>>::empty());
            assert(e.last() =~= Seq::<char>::empty());
            assert(clean_segments(e) == crate::paths::clean_step(
                clean_segments(e.drop_last()),
                e.last(),
            ));
            assert(clean_segments(e.drop_last()) =~= Seq::<Seq<char>>::empty());
            assert(e.last().len() == 0);
            assert(e.last() != seq!['.', '.']) by {
                assert(seq!['.', '.'].len() == 2);
            }
            assert(clean_segments(e) =~= ra);
        }
    }
    assert(clean_segments(split_slash(joined.skip(1))) =~= spsegs) by {
        assert(clean_segments(aa + seq![dw, nm]) =~= ra + seq![dw, nm]);
        assert(spsegs =~= ra + seq![dw, nm]);
    }
    lemma_clean_abs_decomp(sp);
    assert(spec_clean_abs(joined) == sp);
    lemma_strip_ext_noext(sp);
    assert(spec_strip_ext(from) == spec_strip_ext(to));
    assert(spec_loc_eq(sp, from));
}

/// Extension tolerance: a location without an extension equals exactly
/// those locations that strip to it; and two locations that differ once
/// stripped of extensions are never equal.
pub proof fn lemma_extension_tolerance(a: Seq<char>, b: Seq<char>)
    requires
        is_clean_abs(a),
    ensures
        !spec_has_ext(a) ==> (spec_loc_eq(a, b) <==> spec_strip_ext(b) == a),
        spec_loc_eq(a, b) ==> spec_strip_ext(a) == spec_strip_ext(b),
{
    if !spec_has_ext(a) {
        lemma_strip_ext_noext(a);
    }
}

} // verus!
