//! Branches of the fork tree and the ancestry relation between them.
//!
//! The fork registry is a read-only map from a branch id to its `Branch`
//! record; the genesis id 0 is implicit and never appears as a key.  Ancestry
//! is decided by walking `base` links towards the root.

use vstd::prelude::*;

verus! {

use std::collections::HashMap;

broadcast use vstd::std_specs::hash::group_hash_axioms;

/// One lineage in the fork tree: branch `id` grows out of branch `base`.
/// Id 0 names the genesis branch, which is conventionally its own base.
#[derive(Clone, Copy, Debug)]
pub struct Branch {
    pub id: u64,
    pub base: u64,
}

impl Default for Branch {
    /// The genesis branch.
    fn default() -> (b: Branch)
        ensures
            b.id == 0 && b.base == 0,
    {
        Branch { id: 0, base: 0 }
    }
}

/// A fork registry is well formed when the genesis id is absent and every
/// entry is keyed by its own id.
pub open spec fn tree_wf(tree: Map<u64, Branch>) -> bool {
    &&& !tree.dom().contains(0)
    &&& forall|k: u64| #[trigger] tree.dom().contains(k) ==> tree[k].id == k
}

/// `rank` witnesses that following `base` links strictly descends, so the
/// registry holds no cycle.
pub open spec fn tree_ranked(tree: Map<u64, Branch>, rank: Map<u64, nat>) -> bool {
    forall|k: u64| #[trigger] tree.dom().contains(k) ==> {
        &&& rank.dom().contains(k)
        &&& (tree.dom().contains(tree[k].base) ==> rank.dom().contains(tree[k].base)
            && rank[tree[k].base] < rank[k])
    }
}

/// The registry is acyclic: some rank strictly decreases along `base` links.
pub open spec fn tree_acyclic(tree: Map<u64, Branch>) -> bool {
    exists|rank: Map<u64, nat>| tree_ranked(tree, rank)
}

/// The walk from `cur` towards the root meets `a` within `fuel` lookups:
/// either by reaching a branch with `a`'s id, or — when `a` is genesis — by
/// reaching a branch whose base is the root.
pub open spec fn ancestor_reaches(a: Branch, cur: Branch, tree: Map<u64, Branch>, fuel: nat) -> bool
    decreases fuel,
{
    if cur.id == a.id {
        true
    } else if cur.base == 0 && a.id == 0 {
        true
    } else if !tree.dom().contains(cur.base) {
        false
    } else if fuel == 0 {
        false
    } else {
        ancestor_reaches(a, tree[cur.base], tree, (fuel - 1) as nat)
    }
}

/// `a` is `b` itself or an ancestor of `b` in the fork tree.
pub open spec fn is_ancestor(a: Branch, b: Branch, tree: Map<u64, Branch>) -> bool {
    exists|fuel: nat| ancestor_reaches(a, b, tree, fuel)
}

/// The registry agrees with `b`: a non-genesis branch is registered under its
/// own id with exactly this record, and the genesis branch is its own base.
pub open spec fn branch_known(b: Branch, tree: Map<u64, Branch>) -> bool {
    if b.id == 0 {
        b.base == 0
    } else {
        tree.dom().contains(b.id) && tree[b.id] == b
    }
}

/// One registry lookup neither gains nor loses the ancestor `a`.
proof fn lemma_reaches_step(a: Branch, cur: Branch, tree: Map<u64, Branch>)
    requires
        cur.id != a.id,
        !(cur.base == 0 && a.id == 0),
        tree.dom().contains(cur.base),
    ensures
        is_ancestor(a, cur, tree) == is_ancestor(a, tree[cur.base], tree),
{
    if is_ancestor(a, cur, tree) {
        let f = choose|f: nat| ancestor_reaches(a, cur, tree, f);
        assert(f > 0);
        assert(ancestor_reaches(a, tree[cur.base], tree, (f - 1) as nat));
    }
    if is_ancestor(a, tree[cur.base], tree) {
        let f = choose|f: nat| ancestor_reaches(a, tree[cur.base], tree, f);
        assert(ancestor_reaches(a, cur, tree, f + 1));
    }
}

/// A walk that stops outside the registry without a match rules `a` out.
proof fn lemma_reaches_dead_end(a: Branch, cur: Branch, tree: Map<u64, Branch>)
    requires
        cur.id != a.id,
        !(cur.base == 0 && a.id == 0),
        !tree.dom().contains(cur.base),
    ensures
        !is_ancestor(a, cur, tree),
{
    assert forall|f: nat| !ancestor_reaches(a, cur, tree, f) by {}
}

/// Every branch is an ancestor of itself.
pub proof fn lemma_ancestor_reflexive(a: Branch, tree: Map<u64, Branch>)
    ensures
        is_ancestor(a, a, tree),
{
    assert(ancestor_reaches(a, a, tree, 0));
}

/// In a well-formed registry only the genesis id reaches the genesis branch.
proof fn lemma_genesis_has_no_proper_ancestor(a: Branch, tree: Map<u64, Branch>)
    requires
        tree_wf(tree),
        is_ancestor(a, Branch { id: 0, base: 0 }, tree),
    ensures
        a.id == 0,
{
    if a.id != 0 {
        let g = Branch { id: 0, base: 0 };
        assert forall|f: nat| !ancestor_reaches(a, g, tree, f) by {}
    }
}

proof fn lemma_reaches_trans(a: Branch, b: Branch, c: Branch, tree: Map<u64, Branch>, fuel: nat)
    requires
        tree_wf(tree),
        branch_known(b, tree),
        branch_known(c, tree),
        is_ancestor(a, b, tree),
        ancestor_reaches(b, c, tree, fuel),
    ensures
        is_ancestor(a, c, tree),
    decreases fuel,
{
    if c.id == b.id {
        assert(c == b);
    } else if c.base == 0 && b.id == 0 {
        assert(b == Branch { id: 0, base: 0 });
        lemma_genesis_has_no_proper_ancestor(a, tree);
        assert(ancestor_reaches(a, c, tree, 0));
    } else if tree.dom().contains(c.base) {
        if fuel == 0 {
            assert(false);
        }
        let c2 = tree[c.base];
        assert(c.base != 0);
        assert(branch_known(c2, tree));
        lemma_reaches_trans(a, b, c2, tree, (fuel - 1) as nat);
        let f2 = choose|f: nat| ancestor_reaches(a, c2, tree, f);
        assert(ancestor_reaches(a, c, tree, f2 + 1));
    } else {
        assert(false);
    }
}

/// Ancestry is transitive across branches the registry knows.
pub proof fn lemma_ancestor_transitive(a: Branch, b: Branch, c: Branch, tree: Map<u64, Branch>)
    requires
        tree_wf(tree),
        branch_known(b, tree),
        branch_known(c, tree),
        is_ancestor(a, b, tree),
        is_ancestor(b, c, tree),
    ensures
        is_ancestor(a, c, tree),
{
    let f = choose|f: nat| ancestor_reaches(b, c, tree, f);
    lemma_reaches_trans(a, b, c, tree, f);
}

proof fn lemma_reaches_rank(x: Branch, y: Branch, tree: Map<u64, Branch>, rank: Map<u64, nat>, fuel: nat)
    requires
        tree_wf(tree),
        tree_ranked(tree, rank),
        x.id != 0,
        y.id != 0,
        branch_known(x, tree),
        branch_known(y, tree),
        ancestor_reaches(x, y, tree, fuel),
    ensures
        x.id == y.id || rank[x.id] < rank[y.id],
    decreases fuel,
{
    if y.id == x.id {
    } else if tree.dom().contains(y.base) {
        if fuel == 0 {
            assert(false);
        }
        let y2 = tree[y.base];
        assert(tree.dom().contains(y.id));
        assert(tree[y.id] == y);
        assert(rank[y.base] < rank[y.id]);
        assert(y.base != 0);
        assert(branch_known(y2, tree));
        lemma_reaches_rank(x, y2, tree, rank, (fuel - 1) as nat);
    } else {
        assert(false);
    }
}

/// Two distinct branches the registry knows, neither of them genesis, cannot
/// each be the other's ancestor.
pub proof fn lemma_ancestor_antisymmetric(a: Branch, b: Branch, tree: Map<u64, Branch>)
    requires
        tree_wf(tree),
        tree_acyclic(tree),
        a.id != 0,
        b.id != 0,
        branch_known(a, tree),
        branch_known(b, tree),
        is_ancestor(a, b, tree),
        is_ancestor(b, a, tree),
    ensures
        a == b,
{
    let rank = choose|rank: Map<u64, nat>| tree_ranked(tree, rank);
    if a.id != b.id {
        let f1 = choose|f: nat| ancestor_reaches(a, b, tree, f);
        let f2 = choose|f: nat| ancestor_reaches(b, a, tree, f);
        lemma_reaches_rank(a, b, tree, rank, f1);
        lemma_reaches_rank(b, a, tree, rank, f2);
        assert(false);
    }
}

impl Branch {
    /// Walks `other`'s lineage towards the root and reports whether it passes
    /// through `self`.
    pub fn is_trunk_of(&self, other: &Branch, branch_tree: &HashMap<u64, Branch>) -> (r: bool)
        requires
            tree_wf(branch_tree@),
            tree_acyclic(branch_tree@),
        ensures
            r == is_ancestor(*self, *other, branch_tree@),
    {
        let ghost tree = branch_tree@;
        let ghost rank = choose|rank: Map<u64, nat>| tree_ranked(tree, rank);
        if other.id == self.id {
            proof {
                assert(ancestor_reaches(*self, *other, tree, 0));
            }
            return true;
        }
        if other.base == 0 && self.id == 0 {
            proof {
                assert(ancestor_reaches(*self, *other, tree, 0));
            }
            return true;
        }
        let mut current: Branch = match branch_tree.get(&other.base) {
            Some(b) => *b,
            None => {
                proof {
                    lemma_reaches_dead_end(*self, *other, tree);
                }
                return false;
            },
        };
        proof {
            lemma_reaches_step(*self, *other, tree);
        }
        loop
            invariant
                tree_wf(tree),
                tree_ranked(tree, rank),
                branch_tree@ == tree,
                tree.dom().contains(current.id),
                tree[current.id] == current,
                is_ancestor(*self, current, tree) == is_ancestor(*self, *other, tree),
            decreases rank[current.id],
        {
            if current.id == self.id {
                proof {
                    assert(ancestor_reaches(*self, current, tree, 0));
                }
                return true;
            }
            if current.base == 0 && self.id == 0 {
                proof {
                    assert(ancestor_reaches(*self, current, tree, 0));
                }
                return true;
            }
            match branch_tree.get(&current.base) {
                Some(b) => {
                    proof {
                        lemma_reaches_step(*self, current, tree);
                        assert(rank[current.base] < rank[current.id]);
                    }
                    current = *b;
                },
                None => {
                    proof {
                        lemma_reaches_dead_end(*self, current, tree);
                    }
                    return false;
                },
            }
        }
    }
}

} // verus!
