//! The inclusion filter: the paths that either match the inclusion pattern
//! directly or contain-wise reach a matching path. The ancestor test is a
//! substring containment check on full path strings, not a proper
//! path-prefix test, and is kept that way deliberately: it can
//! false-positive when an unrelated path is textually contained in a
//! matched one.
use vstd::prelude::*;
use crate::entry::{Entry, EntryView, entry_views};
use crate::matcher::{glob_match, glob_match_path, glob_valid};
use crate::segments::{contains_substring, is_substring, seg_views};

verus! {

/// `p` is kept for traversal reachability: some entry's full path matches
/// the pattern and contains `p` as a substring (every path contains
/// itself, so direct matches are kept too).
pub open spec fn kept(es: Seq<EntryView>, pat: Seq<char>, p: Seq<char>) -> bool {
    exists|i: int|
        #![trigger es[i]]
        0 <= i < es.len() && glob_match(pat, es[i].path) && is_substring(p, es[i].path)
}

/// `r[j]` is the full path of some entry that the pattern matches.
pub open spec fn names_matched_path(
    r: Seq<String>,
    entries: Seq<Entry>,
    pat: Seq<char>,
    j: int,
) -> bool {
    exists|k: int|
        #![trigger entries[k]]
        0 <= k < entries.len() && r[j]@ == entries[k]@.path && glob_match(pat, entries[k]@.path)
}

/// `p` occurs in the list `r`.
pub open spec fn listed_in(r: Seq<String>, p: Seq<char>) -> bool {
    exists|j: int| #![trigger r[j]] 0 <= j < r.len() && r[j]@ == p
}

/// The set of full paths among `entries` that the pattern matches
/// directly.
pub fn find_matches(pattern: &str, entries: &Vec<Entry>) -> (r: Vec<String>)
    requires
        glob_valid(pattern@),
    ensures
        seg_views(r@) == entries@.map_values(|e: Entry| e@.path).filter(
            |p: Seq<char>| glob_match(pattern@, p),
        ),
        forall|j: int| 0 <= j < r@.len() ==> names_matched_path(r@, entries@, pattern@, j),
        forall|k: int|
            0 <= k < entries@.len() && glob_match(pattern@, (#[trigger] entries@[k])@.path)
                ==> listed_in(r@, entries@[k]@.path),
{
    let ghost ps = entries@.map_values(|e: Entry| e@.path);
    let ghost pred = |p: Seq<char>| glob_match(pattern@, p);
    let mut r: Vec<String> = Vec::new();
    proof {
        reveal(Seq::filter);
        assert(ps.take(0) =~= Seq::<Seq<char>>::empty());
        assert(seg_views(r@) =~= ps.take(0).filter(pred));
    }
    let mut i: usize = 0;
    while i < entries.len()
        invariant
            glob_valid(pattern@),
            0 <= i <= entries@.len(),
            ps == entries@.map_values(|e: Entry| e@.path),
            pred == (|p: Seq<char>| glob_match(pattern@, p)),
            seg_views(r@) == ps.take(i as int).filter(pred),
            forall|j: int| 0 <= j < r@.len() ==> names_matched_path(r@, entries@, pattern@, j),
            forall|k: int|
                0 <= k < i && glob_match(pattern@, (#[trigger] entries@[k])@.path) ==> listed_in(
                    r@,
                    entries@[k]@.path,
                ),
        decreases entries@.len() - i,
    {
        proof {
            reveal(Seq::filter);
            assert(ps.take(i + 1).drop_last() =~= ps.take(i as int));
            assert(ps.take(i + 1).last() == ps[i as int]);
            assert(ps[i as int] == entries@[i as int]@.path);
        }
        let hit = match glob_match_path(pattern, entries[i].path.as_str()) {
            Some(b) => b,
            None => false,
        };
        let ghost r0 = r@;
        if hit {
            r.push(entries[i].path.clone());
            proof {
                assert(r@ =~= r0.push(r@[r0.len() as int]));
                assert(r@[r0.len() as int]@ == entries@[i as int]@.path);
                assert forall|j: int|
                    0 <= j < r@.len() implies names_matched_path(r@, entries@, pattern@, j) by {
                    if j < r0.len() {
                        assert(names_matched_path(r0, entries@, pattern@, j));
                        assert(r@[j] == r0[j]);
                    } else {
                        assert(r@[j]@ == entries@[i as int]@.path);
                        assert(names_matched_path(r@, entries@, pattern@, j)) by {
                            assert(0 <= i < entries@.len() && r@[j]@ == entries@[i as int]@.path
                                && glob_match(pattern@, entries@[i as int]@.path));
                        }
                    }
                }
                assert forall|k: int|
                    0 <= k < i + 1 && glob_match(pattern@, (#[trigger] entries@[k])@.path)
                        implies listed_in(r@, entries@[k]@.path) by {
                    if k < i {
                        assert(listed_in(r0, entries@[k]@.path));
                        let j = choose|j: int|
                            #![trigger r0[j]]
                            0 <= j < r0.len() && r0[j]@ == entries@[k]@.path;
                        assert(r@[j] == r0[j]);
                        assert(r@[j]@ == entries@[k]@.path);
                    } else {
                        assert(r@[r0.len() as int]@ == entries@[k]@.path);
                    }
                }
            }
        }
        proof {
            reveal(Seq::filter);
            assert(pred(ps[i as int]) == hit);
            if hit {
                assert(seg_views(r@) =~= seg_views(r0).push(entries@[i as int]@.path));
                assert(seg_views(r@) =~= ps.take(i + 1).filter(pred));
            } else {
                assert(seg_views(r@) =~= ps.take(i + 1).filter(pred));
            }
        }
        i = i + 1;
    }
    proof {
        assert(ps.take(entries@.len() as int) =~= ps);
    }
    r
}

/// Whether `path` is one of the matched paths or an ancestor of one, by
/// the substring containment test.
pub fn is_match_or_parent(path: &str, matched: &Vec<String>) -> (r: bool)
    ensures
        r == exists|j: int|
            #![trigger matched@[j]]
            0 <= j < matched@.len() && is_substring(path@, matched@[j]@),
{
    let mut j: usize = 0;
    while j < matched.len()
        invariant
            0 <= j <= matched@.len(),
            forall|jj: int|
                #![trigger matched@[jj]]
                0 <= jj < j ==> !is_substring(path@, matched@[jj]@),
        decreases matched@.len() - j,
    {
        if contains_substring(path, matched[j].as_str()) {
            return true;
        }
        j = j + 1;
    }
    false
}

/// The vector handed back by `find_matches` decides `kept` exactly: a path
/// passes the substring test against some matched path if and only if it is
/// kept under the pattern.
pub proof fn lemma_matched_decides_kept(
    matched: Seq<String>,
    entries: Seq<Entry>,
    pat: Seq<char>,
    p: Seq<char>,
)
    requires
        forall|j: int| 0 <= j < matched.len() ==> names_matched_path(matched, entries, pat, j),
        forall|k: int|
            0 <= k < entries.len() && glob_match(pat, (#[trigger] entries[k])@.path) ==> listed_in(
                matched,
                entries[k]@.path,
            ),
    ensures
        (exists|j: int|
            #![trigger matched[j]]
            0 <= j < matched.len() && is_substring(p, matched[j]@)) == kept(
            entry_views(entries),
            pat,
            p,
        ),
{
    let es = entry_views(entries);
    if exists|j: int|
        #![trigger matched[j]]
        0 <= j < matched.len() && is_substring(p, matched[j]@) {
        let j = choose|j: int|
            #![trigger matched[j]]
            0 <= j < matched.len() && is_substring(p, matched[j]@);
        assert(names_matched_path(matched, entries, pat, j));
        let k = choose|k: int|
            #![trigger entries[k]]
            0 <= k < entries.len() && matched[j]@ == entries[k]@.path && glob_match(
                pat,
                entries[k]@.path,
            );
        assert(es[k].path == entries[k]@.path);
        assert(glob_match(pat, es[k].path) && is_substring(p, es[k].path));
        assert(kept(es, pat, p));
    }
    if kept(es, pat, p) {
        let i = choose|i: int|
            #![trigger es[i]]
            0 <= i < es.len() && glob_match(pat, es[i].path) && is_substring(p, es[i].path);
        assert(es[i] == entries[i]@);
        assert(glob_match(pat, entries[i]@.path));
        assert(listed_in(matched, entries[i]@.path));
        let j = choose|j: int|
            #![trigger matched[j]]
            0 <= j < matched.len() && matched[j]@ == entries[i]@.path;
        assert(is_substring(p, matched[j]@));
    }
}

} // verus!
