//! Properties of the pipeline that hold for every entry list, stated over
//! the functional model that `build_tree` is proved against.
use vstd::prelude::*;
use crate::entry::EntryView;
use crate::filter::kept;
use crate::matcher::glob_match;
use crate::pipeline::{build_model, entry_passes, inclusion_active, model_insert, pat_of};
use crate::segments::{is_substring, lemma_prefix_is_substring, split_spec};
use crate::tree::{insert_mids, insert_target};

verus! {

/// The segment address an entry's node ends up at.
pub open spec fn entry_target(e: EntryView) -> Seq<Seq<char>> {
    insert_target(e.path, e.name)
}

/// An ancestor is always kept when a descendant matches: a path-prefix is
/// in particular a substring, so the containment test admits every
/// ancestor of a matching path. (The test being a substring test, it can
/// also admit unrelated paths that occur textually inside a matched one.)
pub proof fn lemma_ancestor_kept(es: Seq<EntryView>, pat: Seq<char>, i: int, p: Seq<char>)
    requires
        0 <= i < es.len(),
        glob_match(pat, es[i].path),
        p.is_prefix_of(es[i].path),
    ensures
        kept(es, pat, p),
{
    lemma_prefix_is_substring(p, es[i].path);
    assert(0 <= i < es.len() && glob_match(pat, es[i].path) && is_substring(p, es[i].path));
}

/// Exclusion is a strict direct match: an entry whose own full path the
/// exclusion pattern does not match survives it, whatever the pattern
/// says about any ancestor's path.
pub proof fn lemma_exclusion_direct(
    es: Seq<EntryView>,
    pat: Option<Seq<char>>,
    g: Seq<char>,
    p: Seq<char>,
)
    requires
        !glob_match(g, p),
        inclusion_active(pat) ==> kept(es, pat_of(pat), p),
    ensures
        entry_passes(es, pat, Some(g), p),
{
}

/// A missing parent orphans the entry: when the walk to an entry's parent
/// is broken, the insertion leaves the tree untouched. An excluded
/// directory therefore silences its whole subtree, by this mechanism and
/// not by the exclusion match itself.
pub proof fn lemma_orphan_dropped(m: Set<Seq<Seq<char>>>, path: Seq<char>, name: Seq<char>)
    requires
        !m.contains(insert_mids(path)),
    ensures
        model_insert(m, path, name) == m,
{
}

/// Inserting under an occupied name replaces: afterwards that address is
/// occupied, and nothing strictly below it survives, so the pre-existing
/// subtree is unreachable and exactly one child of the name remains.
pub proof fn lemma_replacement(
    m: Set<Seq<Seq<char>>>,
    path: Seq<char>,
    name: Seq<char>,
    q: Seq<Seq<char>>,
)
    requires
        split_spec(path).len() >= 2,
        m.contains(insert_mids(path)),
        insert_target(path, name).is_prefix_of(q),
    ensures
        model_insert(m, path, name).contains(q) == (q == insert_target(path, name)),
{
}

/// A non-empty inclusion pattern that matches no entry keeps nothing: the
/// built tree holds only the root.
pub proof fn lemma_no_match_root_only(
    es: Seq<EntryView>,
    pat: Option<Seq<char>>,
    excl: Option<Seq<char>>,
    n: int,
)
    requires
        inclusion_active(pat),
        forall|i: int| 0 <= i < es.len() ==> !glob_match(pat_of(pat), (#[trigger] es[i]).path),
        n <= es.len(),
    ensures
        forall|q: Seq<Seq<char>>| #![trigger build_model(es, pat, excl, n).contains(q)]
            build_model(es, pat, excl, n).contains(q) == (q.len() == 0),
    decreases n,
{
    if n <= 1 {
        assert forall|q: Seq<Seq<char>>|
            build_model(es, pat, excl, n).contains(q) == (q.len() == 0) by {
            if q.len() == 0 {
                assert(q =~= Seq::<Seq<char>>::empty());
            }
        }
    } else {
        lemma_no_match_root_only(es, pat, excl, n - 1);
        assert(!kept(es, pat_of(pat), es[n - 1].path)) by {
            if kept(es, pat_of(pat), es[n - 1].path) {
                let i = choose|i: int|
                    #![trigger es[i]]
                    0 <= i < es.len() && glob_match(pat_of(pat), es[i].path) && is_substring(
                        es[n - 1].path,
                        es[i].path,
                    );
            }
        }
        assert(!entry_passes(es, pat, excl, es[n - 1].path));
        assert(build_model(es, pat, excl, n) == build_model(es, pat, excl, n - 1));
        assert forall|q: Seq<Seq<char>>|
            build_model(es, pat, excl, n).contains(q) == (q.len() == 0) by {
            assert(build_model(es, pat, excl, n).contains(q) == build_model(
                es,
                pat,
                excl,
                n - 1,
            ).contains(q));
        }
    }
}

/// Entries come in traversal order: every entry after the first sits below
/// the root, its parent's address is some earlier entry's address (or the
/// root itself), and no two entries land on the same address.
pub open spec fn well_formed_listing(es: Seq<EntryView>) -> bool {
    &&& es.len() >= 1
    &&& (forall|k: int| 1 <= k < es.len() ==> split_spec((#[trigger] es[k]).path).len() >= 2)
    &&& (forall|k: int|
        1 <= k < es.len() ==> insert_mids((#[trigger] es[k]).path).len() == 0 || exists|j: int|
            #![trigger es[j]]
            1 <= j < k && entry_target(es[j]) == insert_mids(es[k].path))
    &&& (forall|j: int, k: int|
        #![trigger es[j], es[k]]
        1 <= j < k < es.len() ==> entry_target(es[j]) != entry_target(es[k]))
}

/// With no filtering in force, after `n` entries the occupied addresses
/// are exactly the root and the first `n - 1` entries' own addresses, and
/// the occupied set is closed under taking prefixes.
pub proof fn lemma_model_lists_entries(es: Seq<EntryView>, n: int)
    requires
        well_formed_listing(es),
        1 <= n <= es.len(),
    ensures
        forall|q: Seq<Seq<char>>| #![trigger build_model(es, None, None, n).contains(q)]
            build_model(es, None, None, n).contains(q) == (q.len() == 0 || exists|k: int|
                #![trigger es[k]]
                1 <= k < n && entry_target(es[k]) == q),
        forall|q: Seq<Seq<char>>, l: int|
            #![trigger build_model(es, None, None, n).contains(q), q.take(l)]
            build_model(es, None, None, n).contains(q) && 0 <= l <= q.len() ==> build_model(
                es,
                None,
                None,
                n,
            ).contains(q.take(l)),
    decreases n, 0int,
{
    if n == 1 {
        assert forall|q: Seq<Seq<char>>|
            build_model(es, None, None, n).contains(q) == (q.len() == 0 || exists|k: int|
                #![trigger es[k]]
                1 <= k < n && entry_target(es[k]) == q) by {
            if q.len() == 0 {
                assert(q =~= Seq::<Seq<char>>::empty());
            }
        }
        assert forall|q: Seq<Seq<char>>, l: int|
            build_model(es, None, None, n).contains(q) && 0 <= l <= q.len() implies build_model(
            es,
            None,
            None,
            n,
        ).contains(q.take(l)) by {
            assert(q.len() == 0);
            assert(q.take(l) =~= q);
        }
    } else {
        lemma_model_lists_entries(es, n - 1);
        lemma_listing_step(es, n - 1);
        let m = build_model(es, None, None, n - 1);
        let mp = build_model(es, None, None, n);
        let e = es[n - 1];
        let tgt = entry_target(e);
        let mids = insert_mids(e.path);
        assert(split_spec(e.path).len() >= 2);
        assert(entry_passes(es, None, None, e.path));
        assert(m.contains(mids));
        assert(!m.contains(tgt));
        assert(mp == model_insert(m, e.path, e.name));
        assert(tgt.len() == mids.len() + 1);
        // Membership after this step.
        assert forall|q: Seq<Seq<char>>|
            mp.contains(q) == (q.len() == 0 || exists|k: int|
                #![trigger es[k]]
                1 <= k < n && entry_target(es[k]) == q) by {
            if tgt.is_prefix_of(q) {
                if q == tgt {
                    assert(mp.contains(q));
                    assert(1 <= n - 1 < n && entry_target(es[n - 1]) == q);
                } else {
                    assert(!mp.contains(q));
                    assert(tgt.len() < q.len()) by {
                        if tgt.len() == q.len() {
                            assert(q.subrange(0, tgt.len() as int) =~= q);
                        }
                    }
                    if exists|k: int| #![trigger es[k]] 1 <= k < n && entry_target(es[k]) == q {
                        let k = choose|k: int|
                            #![trigger es[k]]
                            1 <= k < n && entry_target(es[k]) == q;
                        assert(k < n - 1);
                        assert(m.contains(q));
                        assert(q.take(tgt.len() as int) == tgt);
                        assert(m.contains(q.take(tgt.len() as int)));
                    }
                    assert(q.len() != 0);
                }
            } else {
                assert(mp.contains(q) == m.contains(q));
                if exists|k: int| #![trigger es[k]] 1 <= k < n && entry_target(es[k]) == q {
                    let k = choose|k: int|
                        #![trigger es[k]]
                        1 <= k < n && entry_target(es[k]) == q;
                    assert(k != n - 1);
                    assert(m.contains(q));
                }
                if m.contains(q) && q.len() != 0 {
                    let k = choose|k: int|
                        #![trigger es[k]]
                        1 <= k < n - 1 && entry_target(es[k]) == q;
                    assert(1 <= k < n && entry_target(es[k]) == q);
                }
            }
        }
        // Prefix-closure after this step.
        assert forall|q: Seq<Seq<char>>, l: int|
            mp.contains(q) && 0 <= l <= q.len() implies mp.contains(q.take(l)) by {
            if tgt.is_prefix_of(q) {
                assert(q == tgt);
                if l == tgt.len() {
                    assert(q.take(l) =~= tgt);
                    assert(mp.contains(tgt));
                } else {
                    assert(q.take(l) =~= mids.take(l));
                    assert(m.contains(mids.take(l)));
                    assert(!tgt.is_prefix_of(q.take(l)));
                    assert(mp.contains(q.take(l)) == m.contains(q.take(l)));
                }
            } else {
                assert(m.contains(q));
                assert(m.contains(q.take(l)));
                assert(!tgt.is_prefix_of(q.take(l))) by {
                    if tgt.is_prefix_of(q.take(l)) {
                        assert forall|x: int| 0 <= x < tgt.len() implies q.subrange(
                            0,
                            tgt.len() as int,
                        )[x] == tgt[x] by {
                            assert(q.take(l).subrange(0, tgt.len() as int)[x] == tgt[x]);
                            assert(q.take(l)[x] == q[x]);
                        }
                        assert(tgt.is_prefix_of(q));
                    }
                }
                assert(mp.contains(q.take(l)) == m.contains(q.take(l)));
            }
        }
    }
}

/// One step of a well-ordered unfiltered listing: the entry's parent is
/// already present and its own address is still free.
pub proof fn lemma_listing_step(es: Seq<EntryView>, i: int)
    requires
        well_formed_listing(es),
        1 <= i < es.len(),
    ensures
        build_model(es, None, None, i).contains(insert_mids(es[i].path)),
        !build_model(es, None, None, i).contains(entry_target(es[i])),
    decreases i, 1int,
{
    lemma_model_lists_entries(es, i);
    let m = build_model(es, None, None, i);
    let mids = insert_mids(es[i].path);
    let tgt = entry_target(es[i]);
    assert(m.contains(mids)) by {
        if mids.len() == 0 {
            assert(mids =~= Seq::<Seq<char>>::empty());
        } else {
            let j = choose|j: int|
                #![trigger es[j]]
                1 <= j < i && entry_target(es[j]) == insert_mids(es[i].path);
            assert(1 <= j < i && entry_target(es[j]) == mids);
        }
    }
    assert(!m.contains(tgt)) by {
        if m.contains(tgt) {
            assert(tgt.len() > 0);
            let k = choose|k: int| #![trigger es[k]] 1 <= k < i && entry_target(es[k]) == tgt;
        }
    }
}

} // verus!
