//! The linear pipeline over one in-memory snapshot of the entry list:
//! validate the patterns, compute the matched paths, then offer every
//! surviving entry to the tree builder in traversal order.
use vstd::prelude::*;
use crate::entry::{Entry, EntryView, entry_views};
use crate::filter::{
    find_matches, is_match_or_parent, kept, lemma_matched_decides_kept, listed_in,
    names_matched_path,
};
use crate::laws::{entry_target, lemma_listing_step, well_formed_listing};
use crate::matcher::{glob_match, glob_match_path, glob_pattern_ok, glob_valid};
use crate::segments::split_spec;
use crate::tree::{insert_applies, insert_mids, insert_target, path_insert, TreeNode};

verus! {

#[derive(Clone, Copy, Debug, PartialEq, Eq, Structural)]
pub enum TreeError {
    /// The inclusion pattern does not compile.
    InvalidPattern,
    /// The exclusion pattern does not compile.
    InvalidExclude,
    /// The traversal yielded no entries, so no tree can be rooted.
    EmptyTraversal,
}

pub open spec fn opt_view(o: Option<String>) -> Option<Seq<char>> {
    match o {
        Some(s) => Some(s@),
        None => None,
    }
}

pub open spec fn pat_of(o: Option<Seq<char>>) -> Seq<char> {
    match o {
        Some(g) => g,
        None => Seq::empty(),
    }
}

/// A supplied pattern that does not compile.
pub open spec fn pattern_fault(o: Option<Seq<char>>) -> bool {
    match o {
        Some(g) => !glob_valid(g),
        None => false,
    }
}

/// Inclusion filtering is in force: a pattern was supplied and is not the
/// empty default.
pub open spec fn inclusion_active(o: Option<Seq<char>>) -> bool {
    match o {
        Some(g) => g.len() > 0,
        None => false,
    }
}

/// The per-entry decision: an entry survives when the kept-set admits it
/// (or no inclusion filtering is in force) and the exclusion pattern does
/// not match its full path directly.
pub open spec fn entry_passes(
    es: Seq<EntryView>,
    pat: Option<Seq<char>>,
    excl: Option<Seq<char>>,
    p: Seq<char>,
) -> bool {
    &&& (inclusion_active(pat) ==> kept(es, pat_of(pat), p))
    &&& (match excl {
        Some(g) => !glob_match(g, p),
        None => true,
    })
}

/// What one accepted entry does to the set of occupied segment addresses.
pub open spec fn model_insert(
    m: Set<Seq<Seq<char>>>,
    path: Seq<char>,
    name: Seq<char>,
) -> Set<Seq<Seq<char>>> {
    if split_spec(path).len() >= 2 && m.contains(insert_mids(path)) {
        Set::new(
            |q: Seq<Seq<char>>|
                if insert_target(path, name).is_prefix_of(q) {
                    q == insert_target(path, name)
                } else {
                    m.contains(q)
                },
        )
    } else {
        m
    }
}

/// The set of occupied segment addresses (relative to the root) after the
/// first `n` entries have been offered to the builder. The first entry
/// only roots the tree; the root itself sits at the empty address.
pub open spec fn build_model(
    es: Seq<EntryView>,
    pat: Option<Seq<char>>,
    excl: Option<Seq<char>>,
    n: int,
) -> Set<Seq<Seq<char>>>
    decreases n,
{
    if n <= 1 {
        Set::<Seq<Seq<char>>>::empty().insert(Seq::empty())
    } else {
        let m = build_model(es, pat, excl, n - 1);
        if entry_passes(es, pat, excl, es[n - 1].path) {
            model_insert(m, es[n - 1].path, es[n - 1].name)
        } else {
            m
        }
    }
}

/// Run the whole pipeline: validate both patterns, root the tree at the
/// first entry, filter and insert the rest in order.
pub fn build_tree(
    entries: &Vec<Entry>,
    pattern: &Option<String>,
    exclude: &Option<String>,
) -> (r: Result<TreeNode, TreeError>)
    ensures
        r is Ok <==> !pattern_fault(opt_view(*pattern)) && !pattern_fault(opt_view(*exclude))
            && entries@.len() > 0,
        match r {
            Ok(t) => {
                &&& t.wf()
                &&& t.label@ == entries@[0]@.name
                &&& forall|q: Seq<Seq<char>>|
                    t.has_path(q) == build_model(
                        entry_views(entries@),
                        opt_view(*pattern),
                        opt_view(*exclude),
                        entries@.len() as int,
                    ).contains(q)
                &&& (opt_view(*pattern) is None && opt_view(*exclude) is None
                    && well_formed_listing(entry_views(entries@)) ==> t.size()
                    == entries@.len())
            },
            Err(e) => {
                &&& (e == TreeError::InvalidPattern) == pattern_fault(opt_view(*pattern))
                &&& (e == TreeError::InvalidExclude) == (!pattern_fault(opt_view(*pattern))
                    && pattern_fault(opt_view(*exclude)))
                &&& (e == TreeError::EmptyTraversal) == (!pattern_fault(opt_view(*pattern))
                    && !pattern_fault(opt_view(*exclude)) && entries@.len() == 0)
            },
        },
{
    let ghost pv = opt_view(*pattern);
    let ghost ev = opt_view(*exclude);
    let use_inclusion: bool = match pattern {
        Some(p) => {
            if !glob_pattern_ok(p.as_str()) {
                return Err(TreeError::InvalidPattern);
            }
            !p.as_str().is_empty()
        },
        None => false,
    };
    if let Some(ex) = exclude {
        if !glob_pattern_ok(ex.as_str()) {
            return Err(TreeError::InvalidExclude);
        }
    }
    if entries.len() == 0 {
        return Err(TreeError::EmptyTraversal);
    }
    let mut matched: Vec<String> = Vec::new();
    if use_inclusion {
        if let Some(p) = pattern {
            matched = find_matches(p.as_str(), entries);
        }
    }
    let ghost es = entry_views(entries@);
    let mut root = TreeNode::new(entries[0].name.clone());
    proof {
        assert forall|q: Seq<Seq<char>>|
            root.has_path(q) == build_model(es, pv, ev, 1).contains(q) by {
            if q.len() == 0 {
                assert(q =~= Seq::<Seq<char>>::empty());
            }
        }
    }
    let mut i: usize = 1;
    while i < entries.len()
        invariant
            1 <= i <= entries@.len(),
            entries@.len() > 0,
            es == entry_views(entries@),
            pv == opt_view(*pattern),
            ev == opt_view(*exclude),
            !pattern_fault(pv),
            !pattern_fault(ev),
            use_inclusion == inclusion_active(pv),
            use_inclusion ==> forall|j: int|
                0 <= j < matched@.len() ==> names_matched_path(matched@, entries@, pat_of(pv), j),
            use_inclusion ==> forall|k: int|
                0 <= k < entries@.len() && glob_match(pat_of(pv), (#[trigger] entries@[k])@.path)
                    ==> listed_in(matched@, entries@[k]@.path),
            root.wf(),
            root.label@ == entries@[0]@.name,
            forall|q: Seq<Seq<char>>|
                root.has_path(q) == build_model(es, pv, ev, i as int).contains(q),
            pv is None && ev is None && well_formed_listing(es) ==> root.size() == i,
        decreases entries@.len() - i,
    {
        let e = &entries[i];
        proof {
            assert(es[i as int] == entries@[i as int]@);
        }
        let mut pass = true;
        if use_inclusion {
            if !is_match_or_parent(e.path.as_str(), &matched) {
                pass = false;
            }
            proof {
                lemma_matched_decides_kept(matched@, entries@, pat_of(pv), e.path@);
            }
        }
        if pass {
            if let Some(ex) = exclude {
                match glob_match_path(ex.as_str(), e.path.as_str()) {
                    Some(b) => {
                        if b {
                            pass = false;
                        }
                    },
                    None => {},
                }
            }
        }
        proof {
            assert(pass == entry_passes(es, pv, ev, es[i as int].path));
        }
        let ghost m = build_model(es, pv, ev, i as int);
        let ghost root0 = root;
        if pass {
            root.insert_at_path(e.path.as_str(), e.name.clone());
            proof {
                assert(m.contains(insert_mids(e.path@)) == root0.has_path(insert_mids(e.path@)));
                assert forall|q: Seq<Seq<char>>|
                    root.has_path(q) == build_model(es, pv, ev, i + 1).contains(q) by {
                    assert(root.has_path(q) == path_insert(root0, e.path@, e.name@, q));
                    assert(build_model(es, pv, ev, i + 1) == model_insert(m, e.path@, e.name@));
                }
                if pv is None && ev is None && well_formed_listing(es) {
                    lemma_listing_step(es, i as int);
                    assert(entry_target(es[i as int]) == insert_target(e.path@, e.name@));
                    assert(insert_applies(root0, e.path@));
                    assert(!root0.has_path(insert_target(e.path@, e.name@)));
                    assert(root.size() == root0.size() + 1);
                }
            }
        } else {
            proof {
                assert(build_model(es, pv, ev, i + 1) == m);
            }
        }
        i = i + 1;
    }
    Ok(root)
}

} // verus!
