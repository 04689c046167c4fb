//! The output hierarchy: a strict tree of labelled nodes. Children are
//! keyed by their label (unique within one parent, insertion order kept),
//! and every node's place is addressed by the slash-separated segments of
//! the path it was inserted under, minus the root's own segment.
use vstd::prelude::*;
use crate::segments::{seg_views, split_segments, split_spec};

verus! {

pub struct TreeNode {
    pub label: String,
    pub children: Vec<TreeNode>,
}

/// Index of the first node in `s` labelled `l`, or -1 if there is none.
pub open spec fn child_index(s: Seq<TreeNode>, l: Seq<char>) -> int
    decreases s.len(),
{
    if s.len() == 0 {
        -1
    } else if s[0].label@ == l {
        0
    } else {
        let r = child_index(s.skip(1), l);
        if r < 0 {
            -1
        } else {
            r + 1
        }
    }
}

pub proof fn lemma_child_index_props(s: Seq<TreeNode>, l: Seq<char>)
    ensures
        child_index(s, l) >= 0 ==> child_index(s, l) < s.len() && s[child_index(s, l)].label@
            == l,
        child_index(s, l) < 0 ==> forall|i: int|
            0 <= i < s.len() ==> (#[trigger] s[i].label@) != l,
    decreases s.len(),
{
    if s.len() == 0 {
    } else if s[0].label@ == l {
    } else {
        lemma_child_index_props(s.skip(1), l);
        if child_index(s, l) < 0 {
            assert forall|i: int| 0 <= i < s.len() implies (#[trigger] s[i].label@) != l by {
                if i > 0 {
                    assert(s.skip(1)[i - 1] == s[i]);
                }
            }
        }
    }
}

pub proof fn lemma_child_index_first(s: Seq<TreeNode>, l: Seq<char>, j: int)
    requires
        0 <= j < s.len(),
        s[j].label@ == l,
        forall|i: int| 0 <= i < j ==> (#[trigger] s[i].label@) != l,
    ensures
        child_index(s, l) == j,
    decreases j,
{
    if j == 0 {
    } else {
        assert(s[0].label@ != l);
        assert(s.skip(1)[j - 1] == s[j]);
        assert(forall|i: int| 0 <= i < j - 1 ==> (#[trigger] s.skip(1)[i].label@) != l) by {
            assert(forall|i: int| 0 <= i < j - 1 ==> s.skip(1)[i] == s[i + 1]);
        }
        lemma_child_index_first(s.skip(1), l, j - 1);
    }
}

pub proof fn lemma_child_index_none(s: Seq<TreeNode>, l: Seq<char>)
    requires
        forall|i: int| 0 <= i < s.len() ==> (#[trigger] s[i].label@) != l,
    ensures
        child_index(s, l) == -1,
    decreases s.len(),
{
    if s.len() == 0 {
    } else {
        assert(forall|i: int| 0 <= i < s.len() - 1 ==> s.skip(1)[i] == s[i + 1]);
        lemma_child_index_none(s.skip(1), l);
    }
}

/// Two rows of children with the same labels agree on every lookup.
pub proof fn lemma_child_index_same_labels(s1: Seq<TreeNode>, s2: Seq<TreeNode>, l: Seq<char>)
    requires
        s1.len() == s2.len(),
        forall|i: int| 0 <= i < s1.len() ==> (#[trigger] s1[i].label@) == s2[i].label@,
    ensures
        child_index(s1, l) == child_index(s2, l),
    decreases s1.len(),
{
    if s1.len() == 0 {
    } else {
        assert(s1[0].label@ == s2[0].label@);
        assert(forall|i: int| 0 <= i < s1.len() - 1 ==> s1.skip(1)[i] == s1[i + 1]);
        assert(forall|i: int| 0 <= i < s2.len() - 1 ==> s2.skip(1)[i] == s2[i + 1]);
        lemma_child_index_same_labels(s1.skip(1), s2.skip(1), l);
    }
}

pub proof fn lemma_child_index_push(s: Seq<TreeNode>, x: TreeNode, l: Seq<char>)
    ensures
        child_index(s, l) >= 0 ==> child_index(s.push(x), l) == child_index(s, l),
        child_index(s, l) < 0 && x.label@ == l ==> child_index(s.push(x), l) == s.len(),
        child_index(s, l) < 0 && x.label@ != l ==> child_index(s.push(x), l) == -1,
    decreases s.len(),
{
    if s.len() == 0 {
        assert(s.push(x)[0] == x);
        assert(s.push(x).skip(1) =~= Seq::<TreeNode>::empty());
        assert(child_index(s.push(x).skip(1), l) == -1);
    } else {
        assert(s.push(x)[0] == s[0]);
        assert(s.push(x).skip(1) =~= s.skip(1).push(x));
        lemma_child_index_push(s.skip(1), x, l);
    }
}

impl TreeNode {
    /// Children of every node carry pairwise distinct labels.
    pub open spec fn wf(self) -> bool
        decreases self,
    {
        &&& (forall|i: int, j: int|
            #![trigger self.children@[i], self.children@[j]]
            0 <= i < j < self.children@.len() ==> self.children@[i].label@
                != self.children@[j].label@)
        &&& (forall|i: int|
            #![trigger self.children@[i]]
            0 <= i < self.children@.len() ==> self.children@[i].wf())
    }

    /// The node addressed by the segment sequence `q`, relative to `self`,
    /// is present in the tree.
    pub open spec fn has_path(self, q: Seq<Seq<char>>) -> bool
        decreases q.len(),
    {
        q.len() == 0 || {
            let j = child_index(self.children@, q[0]);
            j >= 0 && self.children@[j].has_path(q.skip(1))
        }
    }

    /// Number of nodes in the subtree rooted at `self`.
    pub open spec fn size(self) -> nat
        decreases self,
    {
        1 + size_seq(self.children@)
    }

    pub fn new(label: String) -> (t: TreeNode)
        ensures
            t.wf(),
            t.label@ == label@,
            t.children@.len() == 0,
            t.size() == 1,
            forall|q: Seq<Seq<char>>| t.has_path(q) == (q.len() == 0),
    {
        let t = TreeNode { label, children: Vec::new() };
        proof {
            assert forall|q: Seq<Seq<char>>| t.has_path(q) == (q.len() == 0) by {
                if q.len() != 0 {
                    assert(child_index(t.children@, q[0]) == -1);
                }
            }
        }
        t
    }

    /// Index of the first child labelled `seg`, if any.
    fn find_child(&self, seg: &String) -> (r: Option<usize>)
        ensures
            match r {
                Some(j) => j < self.children@.len() && child_index(self.children@, seg@)
                    == j as int,
                None => child_index(self.children@, seg@) == -1,
            },
    {
        let mut j: usize = 0;
        while j < self.children.len()
            invariant
                0 <= j <= self.children@.len(),
                forall|i: int| 0 <= i < j ==> (#[trigger] self.children@[i].label@) != seg@,
            decreases self.children@.len() - j,
        {
            if self.children[j].label == *seg {
                proof {
                    lemma_child_index_first(self.children@, seg@, j as int);
                }
                return Some(j);
            }
            j = j + 1;
        }
        proof {
            lemma_child_index_none(self.children@, seg@);
        }
        None
    }
}

pub open spec fn size_seq(s: Seq<TreeNode>) -> nat
    decreases s,
{
    if s.len() == 0 {
        0
    } else {
        s[0].size() + size_seq(s.skip(1))
    }
}

pub proof fn lemma_size_seq_push(s: Seq<TreeNode>, x: TreeNode)
    ensures
        size_seq(s.push(x)) == size_seq(s) + x.size(),
    decreases s.len(),
{
    if s.len() == 0 {
        assert(s.push(x)[0] == x);
        assert(s.push(x).skip(1) =~= Seq::<TreeNode>::empty());
        assert(size_seq(s.push(x).skip(1)) == 0);
    } else {
        assert(s.push(x)[0] == s[0]);
        assert(s.push(x).skip(1) =~= s.skip(1).push(x));
        lemma_size_seq_push(s.skip(1), x);
    }
}

pub proof fn lemma_size_seq_update(s: Seq<TreeNode>, j: int, x: TreeNode)
    requires
        0 <= j < s.len(),
    ensures
        size_seq(s.update(j, x)) + s[j].size() == size_seq(s) + x.size(),
    decreases s.len(),
{
    if j == 0 {
        assert(s.update(0, x)[0] == x);
        assert(s.update(0, x).skip(1) =~= s.skip(1));
    } else {
        assert(s.update(j, x)[0] == s[0]);
        assert(s.update(j, x).skip(1) =~= s.skip(1).update(j - 1, x));
        lemma_size_seq_update(s.skip(1), j - 1, x);
    }
}

/// Membership after one placement: every path the new node's own path is a
/// proper prefix of is gone (a replaced child loses its whole subtree), the
/// new node's path is present, and everything else is as it was in `t0`.
pub open spec fn spec_insert(t0: TreeNode, target: Seq<Seq<char>>, q: Seq<Seq<char>>) -> bool {
    if target.is_prefix_of(q) {
        q == target
    } else {
        t0.has_path(q)
    }
}

impl TreeNode {
    /// Walk `walk[idx .. walk.len() - 1]` down from `self` and insert a new
    /// node labelled `name` there; abandon the entry silently if the walk
    /// meets a missing child (the orphan policy), replace an existing child
    /// of the same name (and drop its subtree) if there is one.
    fn descend_insert(&mut self, walk: &Vec<String>, idx: usize, name: String) -> (ok: bool)
        requires
            old(self).wf(),
            1 <= idx < walk@.len(),
        ensures
            final(self).wf(),
            final(self).label@ == old(self).label@,
            ok == old(self).has_path(seg_views(walk@).subrange(idx as int, walk@.len() - 1)),
            ok ==> forall|q: Seq<Seq<char>>|
                final(self).has_path(q) == spec_insert(
                    *old(self),
                    seg_views(walk@).subrange(idx as int, walk@.len() - 1).push(name@),
                    q,
                ),
            !ok ==> forall|q: Seq<Seq<char>>| final(self).has_path(q) == old(self).has_path(q),
            !ok ==> final(self).size() == old(self).size(),
            ok && !old(self).has_path(
                seg_views(walk@).subrange(idx as int, walk@.len() - 1).push(name@),
            ) ==> final(self).size() == old(self).size() + 1,
        decreases walk@.len() - idx,
    {
        let ghost mids = seg_views(walk@).subrange(idx as int, walk@.len() - 1);
        let ghost target = mids.push(name@);
        if idx == walk.len() - 1 {
            // `mids` is empty: the new node becomes a child of `self`.
            proof {
                assert(mids =~= Seq::<Seq<char>>::empty());
                assert(target =~= seq![name@]);
            }
            let ghost t0 = *self;
            let leaf = TreeNode::new(name);
            match self.find_child(&leaf.label) {
                Some(j) => {
                    self.children.remove(j);
                    self.children.insert(j, leaf);
                    proof {
                        assert(self.children@ =~= t0.children@.update(j as int, leaf));
                        lemma_size_seq_update(t0.children@, j as int, leaf);
                        lemma_child_index_props(t0.children@, name@);
                        lemma_replace_child_effect(t0, *self, j as int, name@);
                        // The replaced child made the target path present already.
                        assert(target[0] == name@);
                        assert(target.skip(1) =~= Seq::<Seq<char>>::empty());
                        assert(t0.children@[j as int].has_path(target.skip(1)));
                        assert(t0.has_path(target));
                    }
                },
                None => {
                    self.children.push(leaf);
                    proof {
                        assert(self.children@ == t0.children@.push(leaf));
                        lemma_size_seq_push(t0.children@, leaf);
                        lemma_append_child_effect(t0, *self, name@);
                        assert(!t0.has_path(target));
                    }
                },
            }
            true
        } else {
            let seg = &walk[idx];
            proof {
                assert(mids.len() == walk@.len() - 1 - idx);
                assert(mids[0] == walk@[idx as int]@);
            }
            match self.find_child(seg) {
                None => {
                    proof {
                        assert(!old(self).has_path(mids));
                    }
                    false
                },
                Some(j) => {
                    let ghost t0 = *self;
                    let mut child = self.children.remove(j);
                    let ghost c0 = child;
                    let ok = child.descend_insert(walk, idx + 1, name);
                    self.children.insert(j, child);
                    proof {
                        assert(self.children@ =~= t0.children@.update(j as int, child));
                        assert(c0 == t0.children@[j as int]);
                        assert(mids.skip(1) =~= seg_views(walk@).subrange(
                            idx + 1,
                            walk@.len() - 1,
                        ));
                        lemma_size_seq_update(t0.children@, j as int, child);
                        lemma_descend_lift(t0, *self, c0, child, j as int, mids, name@, ok);
                    }
                    ok
                },
            }
        }
    }
}

/// Lifts the contract of a recursive placement one level up: the parent's
/// membership predicate changes exactly on the paths that pass through the
/// walked child.
proof fn lemma_descend_lift(
    t0: TreeNode,
    t1: TreeNode,
    c0: TreeNode,
    c1: TreeNode,
    j: int,
    mids: Seq<Seq<char>>,
    name: Seq<char>,
    ok: bool,
)
    requires
        t0.wf(),
        c1.wf(),
        0 <= j < t0.children@.len(),
        j == child_index(t0.children@, mids[0]),
        c0 == t0.children@[j],
        t1.children@ == t0.children@.update(j, c1),
        t1.label == t0.label,
        mids.len() >= 1,
        c1.label@ == c0.label@,
        ok == c0.has_path(mids.skip(1)),
        ok ==> forall|q: Seq<Seq<char>>|
            c1.has_path(q) == spec_insert(c0, mids.skip(1).push(name), q),
        !ok ==> forall|q: Seq<Seq<char>>| c1.has_path(q) == c0.has_path(q),
    ensures
        t1.wf(),
        ok == t0.has_path(mids),
        ok ==> forall|q: Seq<Seq<char>>| t1.has_path(q) == spec_insert(t0, mids.push(name), q),
        !ok ==> forall|q: Seq<Seq<char>>| t1.has_path(q) == t0.has_path(q),
        ok && !t0.has_path(mids.push(name)) ==> c0.has_path(mids.skip(1)) && !c0.has_path(
            mids.skip(1).push(name),
        ),
{
    let target = mids.push(name);
    assert(target[0] == mids[0]);
    assert(target.skip(1) =~= mids.skip(1).push(name));
    lemma_child_index_props(t0.children@, mids[0]);
    assert(c0.label@ == mids[0]);
    assert(forall|i: int|
        #![trigger t1.children@[i]]
        0 <= i < t1.children@.len() && i != j ==> t1.children@[i] == t0.children@[i]);
    assert(forall|i: int|
        #![trigger t1.children@[i]]
        0 <= i < t1.children@.len() ==> t1.children@[i].label@ == t0.children@[i].label@);
    assert(t1.wf()) by {
        assert forall|i: int| 0 <= i < t1.children@.len() implies (#[trigger] t1.children@[
            i
        ]).wf() by {
            if i != j {
                assert(t0.children@[i].wf());
            }
        }
    }
    assert(t0.has_path(mids) == c0.has_path(mids.skip(1)));
    assert(t0.has_path(target) == c0.has_path(target.skip(1)));
    assert forall|q: Seq<Seq<char>>| #[trigger] t1.has_path(q) == (if ok {
        spec_insert(t0, target, q)
    } else {
        t0.has_path(q)
    }) by {
        if q.len() == 0 {
            assert(t1.has_path(q));
            assert(t0.has_path(q));
            assert(!target.is_prefix_of(q));
        } else {
            lemma_child_index_same_labels(t0.children@, t1.children@, q[0]);
            let ji = child_index(t0.children@, q[0]);
            lemma_child_index_props(t0.children@, q[0]);
            if q[0] == mids[0] {
                // Both sides reduce to the walked child.
                assert(ji == j);
                assert(t1.has_path(q) == c1.has_path(q.skip(1)));
                assert(t0.has_path(q) == c0.has_path(q.skip(1)));
                if ok {
                    assert(target.is_prefix_of(q) == target.skip(1).is_prefix_of(q.skip(1))) by {
                        if target.is_prefix_of(q) {
                            assert(q.subrange(0, target.len() as int).skip(1) =~= q.skip(
                                1,
                            ).subrange(0, target.skip(1).len() as int));
                        }
                        if target.skip(1).is_prefix_of(q.skip(1)) {
                            assert(target.skip(1) == q.skip(1).subrange(0, target.len() - 1));
                            assert forall|i: int|
                                0 <= i < target.len() implies q.subrange(
                                0,
                                target.len() as int,
                            )[i] == target[i] by {
                                if i > 0 {
                                    assert(q.subrange(0, target.len() as int)[i] == q[i]);
                                    assert(q[i] == q.skip(1)[i - 1]);
                                    assert(q.skip(1).subrange(0, target.len() - 1)[i - 1] == q.skip(
                                        1,
                                    )[i - 1]);
                                    assert(target[i] == target.skip(1)[i - 1]);
                                }
                            }
                            assert(q.subrange(0, target.len() as int) =~= target);
                        }
                    }
                    assert((q == target) == (q.skip(1) == target.skip(1))) by {
                        if q.skip(1) == target.skip(1) {
                            assert(q =~= target);
                        }
                    }
                }
            } else {
                // A path through some other child: untouched on both sides.
                assert(ji != j);
                if ji >= 0 {
                    assert(t1.children@[ji] == t0.children@[ji]);
                }
                assert(t1.has_path(q) == t0.has_path(q));
                if ok {
                    assert(!target.is_prefix_of(q)) by {
                        if target.is_prefix_of(q) {
                            assert(q.subrange(0, target.len() as int)[0] == q[0]);
                        }
                    }
                }
            }
        }
    }
}

/// Replacing the child labelled `name` with a fresh leaf: the leaf's path is
/// present, the dropped subtree is not, the rest is untouched.
proof fn lemma_replace_child_effect(t0: TreeNode, t1: TreeNode, j: int, name: Seq<char>)
    requires
        t0.wf(),
        0 <= j < t0.children@.len(),
        j == child_index(t0.children@, name),
        t1.children@ == t0.children@.update(j, t1.children@[j]),
        t1.children@[j].label@ == name,
        t1.children@[j].children@.len() == 0,
        t1.label == t0.label,
    ensures
        t1.wf(),
        forall|q: Seq<Seq<char>>| t1.has_path(q) == spec_insert(t0, seq![name], q),
{
    let target = seq![name];
    let leaf = t1.children@[j];
    lemma_child_index_props(t0.children@, name);
    assert(forall|i: int|
        #![trigger t1.children@[i]]
        0 <= i < t1.children@.len() && i != j ==> t1.children@[i] == t0.children@[i]);
    assert(forall|i: int|
        #![trigger t1.children@[i]]
        0 <= i < t1.children@.len() ==> t1.children@[i].label@ == t0.children@[i].label@);
    assert(t1.wf()) by {
        assert forall|i: int| 0 <= i < t1.children@.len() implies (#[trigger] t1.children@[
            i
        ]).wf() by {
            if i != j {
                assert(t0.children@[i].wf());
            }
        }
    }
    assert forall|q: Seq<Seq<char>>| #[trigger] t1.has_path(q) == spec_insert(t0, target, q) by {
        if q.len() == 0 {
            assert(!target.is_prefix_of(q));
        } else {
            lemma_child_index_same_labels(t0.children@, t1.children@, q[0]);
            let ji = child_index(t0.children@, q[0]);
            lemma_child_index_props(t0.children@, q[0]);
            if q[0] == name {
                assert(ji == j);
                assert(target.is_prefix_of(q));
                assert(t1.has_path(q) == leaf.has_path(q.skip(1)));
                assert(leaf.has_path(q.skip(1)) == (q.len() == 1)) by {
                    if q.len() > 1 {
                        assert(child_index(leaf.children@, q.skip(1)[0]) == -1);
                    }
                }
                assert((q == target) == (q.len() == 1)) by {
                    if q.len() == 1 {
                        assert(q =~= target);
                    }
                }
            } else {
                assert(ji != j);
                if ji >= 0 {
                    assert(t1.children@[ji] == t0.children@[ji]);
                }
                assert(t1.has_path(q) == t0.has_path(q));
                assert(!target.is_prefix_of(q)) by {
                    if target.is_prefix_of(q) {
                        assert(q.subrange(0, target.len() as int)[0] == q[0]);
                    }
                }
            }
        }
    }
}

/// Appending a fresh leaf labelled `name` when no child bore that label.
proof fn lemma_append_child_effect(t0: TreeNode, t1: TreeNode, name: Seq<char>)
    requires
        t0.wf(),
        child_index(t0.children@, name) == -1,
        t1.children@ == t0.children@.push(t1.children@[t0.children@.len() as int]),
        t1.children@[t0.children@.len() as int].label@ == name,
        t1.children@[t0.children@.len() as int].children@.len() == 0,
        t1.label == t0.label,
    ensures
        t1.wf(),
        !t0.has_path(seq![name]),
        forall|q: Seq<Seq<char>>| t1.has_path(q) == spec_insert(t0, seq![name], q),
{
    let target = seq![name];
    let j = t0.children@.len() as int;
    let leaf = t1.children@[j];
    lemma_child_index_props(t0.children@, name);
    assert(forall|i: int|
        #![trigger t1.children@[i]]
        0 <= i < j ==> t1.children@[i] == t0.children@[i]);
    assert(t1.wf()) by {
        assert forall|i: int| 0 <= i < t1.children@.len() implies (#[trigger] t1.children@[
            i
        ]).wf() by {
            if i != j {
                assert(t0.children@[i].wf());
            }
        }
        assert forall|i1: int, i2: int|
            0 <= i1 < i2 < t1.children@.len() implies t1.children@[i1].label@ != t1.children@[
            i2
        ].label@ by {
            if i2 != j {
                assert(t0.children@[i1].label@ != t0.children@[i2].label@);
            } else {
                assert(t0.children@[i1].label@ != name);
            }
        }
    }
    assert(target[0] == name);
    assert(!t0.has_path(target));
    assert forall|q: Seq<Seq<char>>| #[trigger] t1.has_path(q) == spec_insert(t0, target, q) by {
        if q.len() == 0 {
            assert(!target.is_prefix_of(q));
        } else {
            let ji = child_index(t0.children@, q[0]);
            lemma_child_index_props(t0.children@, q[0]);
            lemma_child_index_push(t0.children@, leaf, q[0]);
            if q[0] == name {
                assert(ji == -1);
                assert(child_index(t1.children@, q[0]) == j);
                assert(target.is_prefix_of(q));
                assert(t1.has_path(q) == leaf.has_path(q.skip(1)));
                assert(leaf.has_path(q.skip(1)) == (q.len() == 1)) by {
                    if q.len() > 1 {
                        assert(child_index(leaf.children@, q.skip(1)[0]) == -1);
                    }
                }
                assert((q == target) == (q.len() == 1)) by {
                    if q.len() == 1 {
                        assert(q =~= target);
                    }
                }
                assert(!t0.has_path(q));
            } else {
                assert(child_index(t1.children@, q[0]) == ji);
                if ji >= 0 {
                    assert(t1.children@[ji] == t0.children@[ji]);
                }
                assert(t1.has_path(q) == t0.has_path(q));
                assert(!target.is_prefix_of(q)) by {
                    if target.is_prefix_of(q) {
                        assert(q.subrange(0, target.len() as int)[0] == q[0]);
                    }
                }
            }
        }
    }
}

impl TreeNode {
    fn has_node_from(&self, segs: &Vec<String>, idx: usize) -> (r: bool)
        requires
            idx <= segs@.len(),
        ensures
            r == self.has_path(seg_views(segs@).skip(idx as int)),
        decreases segs@.len() - idx,
    {
        if idx == segs.len() {
            proof {
                assert(seg_views(segs@).skip(idx as int).len() == 0);
            }
            true
        } else {
            let ghost q = seg_views(segs@).skip(idx as int);
            proof {
                assert(q[0] == segs@[idx as int]@);
                assert(q.skip(1) =~= seg_views(segs@).skip(idx + 1));
            }
            match self.find_child(&segs[idx]) {
                None => false,
                Some(j) => self.children[j].has_node_from(segs, idx + 1),
            }
        }
    }

    /// Whether the node addressed by `segs`, relative to `self`, exists.
    pub fn has_node(&self, segs: &Vec<String>) -> (r: bool)
        ensures
            r == self.has_path(seg_views(segs@)),
    {
        proof {
            assert(seg_views(segs@).skip(0) =~= seg_views(segs@));
        }
        self.has_node_from(segs, 0)
    }

    /// The labels of the whole subtree, depth-first, parent before
    /// children: exactly one label per node, as a renderer emits them.
    pub fn collect_labels(&self) -> (v: Vec<String>)
        ensures
            seg_views(v@) == preorder_labels(*self),
            v@.len() == self.size(),
        decreases *self,
    {
        let mut v: Vec<String> = Vec::new();
        v.push(self.label.clone());
        proof {
            assert(seg_views(v@) =~= seq![self.label@] + preorder_seq(self.children@.take(0)));
        }
        let mut i: usize = 0;
        while i < self.children.len()
            invariant
                0 <= i <= self.children@.len(),
                v@.len() == 1 + size_seq(self.children@.take(i as int)),
                seg_views(v@) == seq![self.label@] + preorder_seq(self.children@.take(i as int)),
            decreases self.children@.len() - i,
        {
            proof {
                assert(decreases_to!(*self => self.children@[i as int]));
            }
            let ghost v0 = v@;
            let mut sub = self.children[i].collect_labels();
            v.append(&mut sub);
            proof {
                assert(self.children@.take(i + 1) =~= self.children@.take(i as int).push(
                    self.children@[i as int],
                ));
                lemma_size_seq_push(self.children@.take(i as int), self.children@[i as int]);
                lemma_preorder_seq_push(self.children@.take(i as int), self.children@[i as int]);
                assert(seg_views(v@) =~= seg_views(v0) + preorder_labels(
                    self.children@[i as int],
                ));
            }
            i = i + 1;
        }
        proof {
            assert(self.children@.take(self.children@.len() as int) =~= self.children@);
        }
        v
    }
}

/// The depth-first label listing of a subtree, parent before children.
pub open spec fn preorder_labels(t: TreeNode) -> Seq<Seq<char>>
    decreases t,
{
    seq![t.label@] + preorder_seq(t.children@)
}

pub open spec fn preorder_seq(s: Seq<TreeNode>) -> Seq<Seq<char>>
    decreases s,
{
    if s.len() == 0 {
        Seq::empty()
    } else {
        preorder_labels(s[0]) + preorder_seq(s.skip(1))
    }
}

pub proof fn lemma_preorder_seq_push(s: Seq<TreeNode>, x: TreeNode)
    ensures
        preorder_seq(s.push(x)) == preorder_seq(s) + preorder_labels(x),
    decreases s.len(),
{
    if s.len() == 0 {
        assert(s.push(x)[0] == x);
        assert(s.push(x).skip(1) =~= Seq::<TreeNode>::empty());
        assert(preorder_seq(s.push(x).skip(1)) =~= Seq::<Seq<char>>::empty());
        assert(preorder_seq(s.push(x)) == preorder_labels(x) + preorder_seq(s.push(x).skip(1)));
        assert(preorder_seq(s.push(x)) =~= preorder_seq(s) + preorder_labels(x));
    } else {
        assert(s.push(x)[0] == s[0]);
        assert(s.push(x).skip(1) =~= s.skip(1).push(x));
        lemma_preorder_seq_push(s.skip(1), x);
        assert(preorder_seq(s.push(x)) == preorder_labels(s[0]) + preorder_seq(
            s.skip(1).push(x),
        ));
        assert(preorder_seq(s) == preorder_labels(s[0]) + preorder_seq(s.skip(1)));
        assert(preorder_seq(s.push(x)) =~= preorder_seq(s) + preorder_labels(x));
    }
}

/// The intermediate walk of an insertion under `path`: all of the path's
/// segments but the first (the root's own) and the last (replaced by the
/// entry's name).
pub open spec fn insert_mids(path: Seq<char>) -> Seq<Seq<char>> {
    split_spec(path).subrange(1, split_spec(path).len() - 1)
}

/// The segment address the inserted node ends up at.
pub open spec fn insert_target(path: Seq<char>, name: Seq<char>) -> Seq<Seq<char>> {
    insert_mids(path).push(name)
}

/// The insertion takes effect: the path reaches below the root and the whole
/// intermediate walk is present (otherwise the entry is an orphan).
pub open spec fn insert_applies(t0: TreeNode, path: Seq<char>) -> bool {
    split_spec(path).len() >= 2 && t0.has_path(insert_mids(path))
}

/// Membership after `insert_at_path`.
pub open spec fn path_insert(t0: TreeNode, path: Seq<char>, name: Seq<char>, q: Seq<Seq<char>>) -> bool {
    if insert_applies(t0, path) {
        spec_insert(t0, insert_target(path, name), q)
    } else {
        t0.has_path(q)
    }
}

impl TreeNode {
    /// Split `path` on `'/'`, discard the first segment (the root itself),
    /// walk the remaining segments from the root and insert a node labelled
    /// `name` at the final one. Orphans (a missing intermediate child) are
    /// dropped silently; a path with fewer than two segments addresses the
    /// root itself and is dropped as well.
    pub fn insert_at_path(&mut self, path: &str, name: String)
        requires
            old(self).wf(),
        ensures
            final(self).wf(),
            final(self).label@ == old(self).label@,
            forall|q: Seq<Seq<char>>|
                final(self).has_path(q) == path_insert(*old(self), path@, name@, q),
            insert_applies(*old(self), path@) && !old(self).has_path(
                insert_target(path@, name@),
            ) ==> final(self).size() == old(self).size() + 1,
            !insert_applies(*old(self), path@) ==> final(self).size() == old(self).size(),
    {
        let segs = split_segments(path);
        if segs.len() < 2 {
            proof {
                assert(!insert_applies(*old(self), path@));
            }
            return ;
        }
        proof {
            assert(seg_views(segs@).subrange(1, segs@.len() - 1) =~= insert_mids(path@));
        }
        self.descend_insert(&segs, 1, name);
    }
}

} // verus!
