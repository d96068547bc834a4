//! The vote tower: a bounded stack of votes with exponentially growing
//! lockouts, newest vote at index 0.
//!
//! A proposed vote first rolls expired votes back, then must descend from the
//! tower's tip, then must pass the convergence check, and is finally pushed on
//! top, doubling equal adjacent lockouts.  When the stack reaches capacity the
//! bottom vote is popped and its branch becomes the finalized trunk.

use vstd::prelude::*;

verus! {

use std::collections::HashMap;
use vstd::arithmetic::power2::pow2;
use vstd::arithmetic::power2::lemma_pow2_unfold;
use vstd::arithmetic::power2::lemma_pow2_strictly_increases;
use vstd::arithmetic::power2::lemma2_to64;
use vstd::arithmetic::power2::lemma2_to64_rest;
use crate::ancestry::Branch;
use crate::ancestry::branch_known;
use crate::ancestry::is_ancestor;
use crate::ancestry::lemma_ancestor_reflexive;
use crate::ancestry::lemma_ancestor_transitive;
use crate::ancestry::tree_acyclic;
use crate::ancestry::tree_wf;

broadcast use vstd::std_specs::hash::group_hash_axioms;

/// A vote for `branch` cast at slot `time`, locking the participant to
/// descendants of `branch` until slot `time + lockout`.
#[derive(Clone, Copy, Debug)]
pub struct Vote {
    pub branch: Branch,
    pub time: u64,
    pub lockout: u64,
}

impl Vote {
    /// The first slot at which this vote no longer locks its participant.
    pub open spec fn lock_height_spec(self) -> int {
        self.time + self.lockout
    }

    /// A fresh vote starts with the initial lockout of 2.
    pub fn new(branch: Branch, time: u64) -> (v: Vote)
        ensures
            v.branch == branch,
            v.time == time,
            v.lockout == 2,
    {
        Vote { branch, time, lockout: 2 }
    }

    pub fn lock_height(&self) -> (h: u64)
        requires
            self.time + self.lockout <= u64::MAX,
        ensures
            h == self.lock_height_spec(),
    {
        self.time + self.lockout
    }

    /// Whether this vote's branch is an ancestor of `other`'s branch.
    pub fn is_trunk_of(&self, other: &Vote, branch_tree: &HashMap<u64, Branch>) -> (r: bool)
        requires
            tree_wf(branch_tree@),
            tree_acyclic(branch_tree@),
        ensures
            r == is_ancestor(self.branch, other.branch, branch_tree@),
    {
        self.branch.is_trunk_of(&other.branch, branch_tree)
    }
}

/// The tower: votes with index 0 the newest (top) and index `len - 1` the
/// oldest, most locked one (bottom); `branch_trunk` is the most recently
/// finalized branch and the ancestry anchor of an empty tower.
#[derive(Debug)]
pub struct LockTower {
    pub votes: Vec<Vote>,
    pub max_size: usize,
    pub branch_trunk: Branch,
}

/// The branch the tower currently stands on: the newest vote's branch, or the
/// finalized trunk when no votes are active.
pub open spec fn tip_spec(s: Seq<Vote>, trunk: Branch) -> Branch {
    if s.len() > 0 {
        s[0].branch
    } else {
        trunk
    }
}

/// `x` is a lockout the doubling rule can produce: a power of two between the
/// initial lockout 2 and the finalization lockout `pow2(cap)`.
pub open spec fn is_lockout_value(x: u64, cap: nat) -> bool {
    exists|k: nat| 1 <= k <= cap && x == pow2(k)
}

/// Lockouts are powers of two and at least double with depth.
pub open spec fn lockouts_wf(s: Seq<Vote>, cap: nat) -> bool {
    &&& forall|i: int| #![trigger s[i]] 0 <= i < s.len() ==> is_lockout_value(s[i].lockout, cap)
    &&& forall|i: int, j: int| #![trigger s[i], s[j]] 0 <= i && j == i + 1 && j < s.len()
        ==> s[i].lockout * 2 <= s[j].lockout
}

/// Slots never increase with depth: the newest vote carries the largest slot.
pub open spec fn times_ordered(s: Seq<Vote>) -> bool {
    forall|i: int, j: int| #![trigger s[i], s[j]] 0 <= i <= j < s.len() ==> s[j].time <= s[i].time
}

/// Every slot leaves room for the largest lockout, so lock heights fit in u64.
pub open spec fn times_bounded(s: Seq<Vote>, cap: nat) -> bool {
    forall|i: int| #![trigger s[i]] 0 <= i < s.len() ==> s[i].time + pow2(cap) <= u64::MAX
}

/// Number of participants the convergence map reports on `id`; absent entries
/// count as zero.
pub open spec fn converge_count(cmap: Map<u64, u64>, id: u64) -> u64 {
    if cmap.dom().contains(id) {
        cmap[id]
    } else {
        0
    }
}

/// The vote at `depth`, if there is one, sits on a branch held by a majority
/// of the 100-node reference network.
pub open spec fn converged_spec(s: Seq<Vote>, cmap: Map<u64, u64>, depth: int) -> bool {
    0 <= depth < s.len() ==> converge_count(cmap, s[depth].branch.id) > 50
}

/// Index of the deepest strictly expired vote at slot `time`, or -1.
pub open spec fn expired_cutoff(s: Seq<Vote>, time: u64) -> int
    decreases s.len(),
{
    if s.len() == 0 {
        -1
    } else if s.last().lock_height_spec() < time {
        s.len() - 1
    } else {
        expired_cutoff(s.drop_last(), time)
    }
}

/// Rollback evicts the deepest expired vote and every newer vote above it.
pub open spec fn rollback_spec(s: Seq<Vote>, time: u64) -> Seq<Vote> {
    s.subrange(expired_cutoff(s, time) + 1, s.len() as int)
}

/// `v` with its lockout doubled.
pub open spec fn doubled_vote(v: Vote) -> Vote {
    Vote { branch: v.branch, time: v.time, lockout: (v.lockout * 2) as u64 }
}

/// The doubling pass over positions `1 .. n`, top to bottom: a vote's lockout
/// doubles exactly when it equals the (already processed) lockout above it.
pub open spec fn cascade_upto(s: Seq<Vote>, n: int) -> Seq<Vote>
    decreases n,
{
    if n <= 1 {
        s
    } else {
        let t = cascade_upto(s, n - 1);
        if n <= t.len() && t[n - 1].lockout == t[n - 2].lockout {
            t.update(n - 1, doubled_vote(t[n - 1]))
        } else {
            t
        }
    }
}

/// The stack after pushing `v` on top and running the doubling pass.
pub open spec fn enter_spec(s: Seq<Vote>, v: Vote) -> Seq<Vote> {
    cascade_upto(seq![v] + s, (s.len() + 1) as int)
}

/// Whether the tower accepts `vote`: after rollback at `vote.time`, the vote
/// must descend from the surviving tip (or the trunk) and the vote at `depth`
/// must be converged.
pub open spec fn accepts(
    t: LockTower,
    vote: Vote,
    tree: Map<u64, Branch>,
    cmap: Map<u64, u64>,
    depth: int,
) -> bool {
    let rolled = rollback_spec(t.votes@, vote.time);
    &&& is_ancestor(tip_spec(rolled, t.branch_trunk), vote.branch, tree)
    &&& converged_spec(rolled, cmap, depth)
}

/// The stack and trunk a tower holds after accepting `vote`: the rolled-back
/// stack with `vote` entered on top and, when that fills the tower, the bottom
/// vote popped and finalized as the new trunk.
pub open spec fn propose_result(t: LockTower, vote: Vote) -> (Seq<Vote>, Branch) {
    let entered = enter_spec(rollback_spec(t.votes@, vote.time), vote);
    if entered.len() == t.max_size {
        (entered.drop_last(), entered.last().branch)
    } else {
        (entered, t.branch_trunk)
    }
}

/// Every vote descends from every deeper vote and from the trunk.
pub open spec fn votes_linked(s: Seq<Vote>, trunk: Branch, tree: Map<u64, Branch>) -> bool {
    &&& forall|i: int, j: int| #![trigger s[i], s[j]] 0 <= i <= j < s.len() ==> is_ancestor(
        s[j].branch,
        s[i].branch,
        tree,
    )
    &&& forall|i: int| #![trigger s[i]] 0 <= i < s.len() ==> is_ancestor(trunk, s[i].branch, tree)
}

/// Every branch the tower holds agrees with the fork registry.
pub open spec fn votes_known(s: Seq<Vote>, trunk: Branch, tree: Map<u64, Branch>) -> bool {
    &&& forall|i: int| #![trigger s[i]] 0 <= i < s.len() ==> branch_known(s[i].branch, tree)
    &&& branch_known(trunk, tree)
}

/// Position and boundary facts about the rollback cutoff: it lies inside the
/// stack, it is expired itself, and everything below it is not expired.
pub proof fn lemma_cutoff_props(s: Seq<Vote>, time: u64)
    ensures
        -1 <= expired_cutoff(s, time) < s.len(),
        expired_cutoff(s, time) >= 0 ==> s[expired_cutoff(s, time)].lock_height_spec() < time,
        forall|j: int| expired_cutoff(s, time) < j < s.len() ==> s[j].lock_height_spec() >= time,
    decreases s.len(),
{
    if s.len() == 0 {
    } else if s.last().lock_height_spec() < time {
    } else {
        lemma_cutoff_props(s.drop_last(), time);
        assert(forall|j: int| 0 <= j < s.len() - 1 ==> s.drop_last()[j] == s[j]);
    }
}

/// Lockouts the doubling rule can produce are at least the initial 2.
proof fn lemma_lockout_ge_two(x: u64, cap: nat)
    requires
        is_lockout_value(x, cap),
    ensures
        x >= 2,
{
    let k = choose|k: nat| 1 <= k <= cap && x == pow2(k);
    lemma2_to64();
    if k > 1 {
        lemma_pow2_strictly_increases(1, k);
    }
}

/// No lockout exceeds the finalization lockout `pow2(cap)`.
pub proof fn lemma_lockout_le_cap(x: u64, cap: nat)
    requires
        is_lockout_value(x, cap),
    ensures
        x <= pow2(cap),
{
    let k = choose|k: nat| 1 <= k <= cap && x == pow2(k);
    if k < cap {
        lemma_pow2_strictly_increases(k, cap);
    }
}

/// A lockout strictly above `pow2(m)` is at least the next power of two.
proof fn lemma_lockout_above(x: u64, m: nat, cap: nat)
    requires
        is_lockout_value(x, cap),
        x > pow2(m),
    ensures
        x >= 2 * pow2(m),
{
    let k = choose|k: nat| 1 <= k <= cap && x == pow2(k);
    if k <= m {
        if k < m {
            lemma_pow2_strictly_increases(k, m);
        }
        assert(false);
    }
    lemma_pow2_unfold(m + 1);
    if k > m + 1 {
        lemma_pow2_strictly_increases(m + 1, k);
    }
}

/// Taking a contiguous slice of the stack keeps the structural invariants.
proof fn lemma_subrange_preserves(s: Seq<Vote>, a: int, b: int, cap: nat)
    requires
        0 <= a <= b <= s.len(),
        lockouts_wf(s, cap),
        times_ordered(s),
        times_bounded(s, cap),
    ensures
        lockouts_wf(s.subrange(a, b), cap),
        times_ordered(s.subrange(a, b)),
        times_bounded(s.subrange(a, b), cap),
{
    let t = s.subrange(a, b);
    assert forall|i: int| #![trigger t[i]] 0 <= i < t.len() implies is_lockout_value(
        t[i].lockout,
        cap,
    ) && t[i].time + pow2(cap) <= u64::MAX by {
        assert(t[i] == s[a + i]);
    }
    assert forall|i: int, j: int| #![trigger t[i], t[j]] 0 <= i && j == i + 1 && j < t.len()
        implies t[i].lockout * 2 <= t[j].lockout by {
        assert(t[i] == s[a + i]);
        assert(t[j] == s[a + j]);
    }
    assert forall|i: int, j: int| #![trigger t[i], t[j]] 0 <= i <= j < t.len()
        implies t[j].time <= t[i].time by {
        assert(t[i] == s[a + i]);
        assert(t[j] == s[a + j]);
    }
}

/// Taking a contiguous slice of the stack keeps the ancestry invariants.
proof fn lemma_subrange_links(s: Seq<Vote>, trunk: Branch, tree: Map<u64, Branch>, a: int, b: int)
    requires
        0 <= a <= b <= s.len(),
        votes_linked(s, trunk, tree),
        votes_known(s, trunk, tree),
    ensures
        votes_linked(s.subrange(a, b), trunk, tree),
        votes_known(s.subrange(a, b), trunk, tree),
{
    let t = s.subrange(a, b);
    assert forall|i: int, j: int| #![trigger t[i], t[j]] 0 <= i <= j < t.len()
        implies is_ancestor(t[j].branch, t[i].branch, tree) by {
        assert(t[i] == s[a + i]);
        assert(t[j] == s[a + j]);
    }
    assert forall|i: int| #![trigger t[i]] 0 <= i < t.len() implies is_ancestor(
        trunk,
        t[i].branch,
        tree,
    ) && branch_known(t[i].branch, tree) by {
        assert(t[i] == s[a + i]);
    }
}

/// Entering a vote that descends from the tip of a linked stack of known
/// branches links the whole new stack: every older vote and the trunk are
/// ancestors of the new vote by transitivity through the tip.
proof fn lemma_enter_links(
    e: Seq<Vote>,
    s: Seq<Vote>,
    trunk: Branch,
    v: Vote,
    tree: Map<u64, Branch>,
)
    requires
        tree_wf(tree),
        votes_linked(s, trunk, tree),
        votes_known(s, trunk, tree),
        branch_known(v.branch, tree),
        is_ancestor(tip_spec(s, trunk), v.branch, tree),
        e.len() == s.len() + 1,
        e[0].branch == v.branch,
        forall|i: int| #![trigger e[i]] 1 <= i < e.len() ==> e[i].branch == s[i - 1].branch,
    ensures
        votes_linked(e, trunk, tree),
        votes_known(e, trunk, tree),
{
    assert forall|i: int, j: int| #![trigger e[i], e[j]] 0 <= i <= j < e.len()
        implies is_ancestor(e[j].branch, e[i].branch, tree) by {
        if i == 0 {
            if j == 0 {
                lemma_ancestor_reflexive(e[0].branch, tree);
            } else {
                if s.len() > 0 {
                    assert(is_ancestor(s[j - 1].branch, s[0].branch, tree));
                    lemma_ancestor_transitive(s[j - 1].branch, s[0].branch, v.branch, tree);
                }
            }
        } else {
            assert(is_ancestor(s[j - 1].branch, s[i - 1].branch, tree));
        }
    }
    assert forall|i: int| #![trigger e[i]] 0 <= i < e.len() implies is_ancestor(
        trunk,
        e[i].branch,
        tree,
    ) by {
        if i == 0 {
            if s.len() > 0 {
                assert(is_ancestor(trunk, s[0].branch, tree));
                lemma_ancestor_transitive(trunk, s[0].branch, v.branch, tree);
            }
        } else {
            assert(is_ancestor(trunk, s[i - 1].branch, tree));
        }
    }
}

/// Finalizing the bottom vote keeps the stack linked: the popped branch is an
/// ancestor of every remaining vote, so it anchors them as the new trunk.
proof fn lemma_pop_links(e: Seq<Vote>, tree: Map<u64, Branch>)
    requires
        e.len() > 0,
        forall|i: int, j: int| #![trigger e[i], e[j]] 0 <= i <= j < e.len() ==> is_ancestor(
            e[j].branch,
            e[i].branch,
            tree,
        ),
        forall|i: int| #![trigger e[i]] 0 <= i < e.len() ==> branch_known(e[i].branch, tree),
    ensures
        votes_linked(e.drop_last(), e.last().branch, tree),
        votes_known(e.drop_last(), e.last().branch, tree),
{
    let t = e.drop_last();
    assert forall|i: int, j: int| #![trigger t[i], t[j]] 0 <= i <= j < t.len()
        implies is_ancestor(t[j].branch, t[i].branch, tree) by {
        assert(t[i] == e[i]);
        assert(t[j] == e[j]);
    }
    assert forall|i: int| #![trigger t[i]] 0 <= i < t.len() implies is_ancestor(
        e.last().branch,
        t[i].branch,
        tree,
    ) && branch_known(t[i].branch, tree) by {
        assert(t[i] == e[i]);
        assert(is_ancestor(e[e.len() - 1].branch, e[i].branch, tree));
    }
}

/// The doubling pass at position `j` fires exactly when every position above
/// it has doubled, which forces the canonical 2, 4, 8, ... prefix in `p`.
pub open spec fn run_ok(p: Seq<Vote>, i: int) -> bool {
    forall|j: int| #![trigger p[j]] 1 <= j < i ==> p[j].lockout == pow2(j as nat)
}

/// State of the doubling pass after processing positions `1 .. i` of the
/// pushed stack `p`: fields other than lockouts never change, the processed
/// prefix has well-formed, at least doubling lockouts, and the last processed
/// lockout is `pow2(i)` while the doubling run lasts and untouched once it has
/// broken.
#[verifier::rlimit(100)]
#[verifier::spinoff_prover]
proof fn lemma_cascade_stage(p: Seq<Vote>, cap: nat, i: int)
    requires
        1 <= cap <= 63,
        1 <= p.len() <= cap,
        p[0].lockout == 2,
        forall|j: int| #![trigger p[j]] 1 <= j < p.len() ==> is_lockout_value(p[j].lockout, cap),
        forall|a: int, b: int| #![trigger p[a], p[b]] 1 <= a && b == a + 1 && b < p.len()
            ==> p[a].lockout * 2 <= p[b].lockout,
        1 <= i <= p.len(),
    ensures
        cascade_upto(p, i).len() == p.len(),
        cascade_upto(p, i)[0] == p[0],
        forall|j: int| #![trigger cascade_upto(p, i)[j]] 0 <= j < p.len() ==> cascade_upto(
            p,
            i,
        )[j].branch == p[j].branch && cascade_upto(p, i)[j].time == p[j].time,
        forall|j: int| #![trigger cascade_upto(p, i)[j]] i <= j < p.len() ==> cascade_upto(p, i)[j]
            == p[j],
        forall|j: int| #![trigger cascade_upto(p, i)[j]] 0 <= j < i ==> is_lockout_value(
            cascade_upto(p, i)[j].lockout,
            cap,
        ),
        forall|a: int, b: int| #![trigger cascade_upto(p, i)[a], cascade_upto(p, i)[b]] 0 <= a && b
            == a + 1 && b < i ==> cascade_upto(p, i)[a].lockout * 2 <= cascade_upto(p, i)[b].lockout,
        run_ok(p, i) ==> cascade_upto(p, i)[i - 1].lockout == pow2(i as nat),
        !run_ok(p, i) ==> cascade_upto(p, i)[i - 1] == p[i - 1],
    decreases i,
{
    lemma2_to64();
    if i == 1 {
        assert(cascade_upto(p, i) == p);
        assert(is_lockout_value(p[0].lockout, cap)) by {
            assert(p[0].lockout == pow2(1));
        }
    } else {
        lemma_cascade_stage(p, cap, i - 1);
        let t0 = cascade_upto(p, i - 1);
        assert(t0[i - 1] == p[i - 1]);
        lemma_pow2_unfold(i as nat);
        lemma_pow2_unfold((i - 1) as nat);
        if run_ok(p, i - 1) {
            assert(t0[i - 2].lockout == pow2((i - 1) as nat));
            if p[i - 1].lockout == pow2((i - 1) as nat) {
                // the run continues: this position doubles to pow2(i)
                assert(run_ok(p, i));
                assert(cascade_upto(p, i) == t0.update(i - 1, doubled_vote(t0[i - 1])));
                lemma2_to64_rest();
                if i < 63 {
                    lemma_pow2_strictly_increases(i as nat, 63);
                }
                assert(pow2(i as nat) <= 0x8000000000000000);
                assert(cascade_upto(p, i)[i - 1].lockout == pow2(i as nat));
                assert(is_lockout_value(cascade_upto(p, i)[i - 1].lockout, cap)) by {
                    assert(cascade_upto(p, i)[i - 1].lockout == pow2(i as nat));
                    assert(1 <= i as nat <= cap);
                }
            } else {
                // the run breaks here: nothing changes at this position
                if run_ok(p, i) {
                    assert(p[i - 1].lockout == pow2((i - 1) as nat));
                }
                assert(cascade_upto(p, i) == t0);
                // the untouched lockout still at least doubles the one above
                if i >= 3 {
                    assert(p[i - 2].lockout == pow2((i - 2) as nat));
                    assert(p[i - 2].lockout * 2 <= p[i - 1].lockout);
                    lemma_pow2_unfold((i - 1) as nat);
                    assert(p[i - 1].lockout >= pow2((i - 1) as nat));
                } else {
                    lemma_lockout_ge_two(p[1].lockout, cap);
                    assert(p[i - 1].lockout >= pow2(1));
                }
                assert(p[i - 1].lockout > pow2((i - 1) as nat));
                lemma_lockout_above(p[i - 1].lockout, (i - 1) as nat, cap);
                assert(t0[i - 2].lockout * 2 <= t0[i - 1].lockout);
            }
        } else {
            // the run broke earlier: adjacent lockouts stay strictly apart
            if run_ok(p, i) {
                assert(run_ok(p, i - 1));
                assert(false);
            }
            if i == 2 {
                assert(run_ok(p, 1));
                assert(false);
            }
            assert(t0[i - 2] == p[i - 2]);
            assert(p[i - 2].lockout * 2 <= p[i - 1].lockout);
            lemma_lockout_ge_two(p[i - 2].lockout, cap);
            assert(t0[i - 1].lockout != t0[i - 2].lockout);
            assert(cascade_upto(p, i) == t0);
        }
    }
}

proof fn lemma_cutoff_extend(s: Seq<Vote>, i: int, time: u64)
    requires
        0 <= i < s.len(),
    ensures
        expired_cutoff(s.subrange(0, i + 1), time) == if s[i].lock_height_spec() < time {
            i
        } else {
            expired_cutoff(s.subrange(0, i), time)
        },
{
    let t = s.subrange(0, i + 1);
    assert(t.last() == s[i]);
    assert(t.drop_last() =~= s.subrange(0, i));
}

impl LockTower {
    /// Structural invariant of the tower itself: a usable capacity, a stack
    /// strictly below it, well-formed lockouts and ordered, bounded slots.
    pub open spec fn inv(self) -> bool {
        &&& 1 <= self.max_size <= 63
        &&& self.votes@.len() < self.max_size
        &&& lockouts_wf(self.votes@, self.max_size as nat)
        &&& times_ordered(self.votes@)
        &&& times_bounded(self.votes@, self.max_size as nat)
    }

    /// Ancestry invariant with respect to a fork registry: every vote descends
    /// from every deeper vote and from the finalized trunk.
    pub open spec fn linked(self, tree: Map<u64, Branch>) -> bool {
        votes_linked(self.votes@, self.branch_trunk, tree)
    }

    /// Every branch the tower holds agrees with the fork registry.
    pub open spec fn known(self, tree: Map<u64, Branch>) -> bool {
        votes_known(self.votes@, self.branch_trunk, tree)
    }

    /// An empty tower anchored at the genesis branch.  Capacities up to 63
    /// keep every lockout and lock height within u64.
    pub fn new(max_size: usize) -> (t: LockTower)
        requires
            1 <= max_size <= 63,
        ensures
            t.votes@.len() == 0,
            t.max_size == max_size,
            t.branch_trunk == (Branch { id: 0, base: 0 }),
            t.inv(),
            forall|tree: Map<u64, Branch>| #[trigger] t.linked(tree),
            forall|tree: Map<u64, Branch>| #[trigger] t.known(tree),
    {
        let t = LockTower { votes: Vec::new(), max_size, branch_trunk: Branch::default() };
        proof {
            assert forall|tree: Map<u64, Branch>| #[trigger] t.linked(tree) by {}
            assert forall|tree: Map<u64, Branch>| #[trigger] t.known(tree) by {}
        }
        t
    }

    /// The newest (top) vote.
    fn last_vote(&self) -> (r: Option<Vote>)
        ensures
            self.votes@.len() > 0 ==> r == Some(self.votes@[0]),
            self.votes@.len() == 0 ==> r.is_none(),
    {
        if self.votes.len() > 0 {
            Some(self.votes[0])
        } else {
            None
        }
    }

    /// The vote `ix` positions below the top.
    fn get_vote(&self, ix: usize) -> (r: Option<Vote>)
        ensures
            ix < self.votes@.len() ==> r == Some(self.votes@[ix as int]),
            ix >= self.votes@.len() ==> r.is_none(),
    {
        if ix < self.votes.len() {
            Some(self.votes[ix])
        } else {
            None
        }
    }

    /// The oldest (bottom) vote, the next to be finalized.
    pub fn first_vote(&self) -> (r: Option<Vote>)
        ensures
            self.votes@.len() > 0 ==> r == Some(self.votes@.last()),
            self.votes@.len() == 0 ==> r.is_none(),
    {
        if self.votes.len() > 0 {
            Some(self.votes[self.votes.len() - 1])
        } else {
            None
        }
    }

    /// The branch the tower currently stands on.
    pub fn last_branch(&self) -> (b: Branch)
        ensures
            b == tip_spec(self.votes@, self.branch_trunk),
    {
        match self.last_vote() {
            Some(v) => v.branch,
            None => self.branch_trunk,
        }
    }

    fn is_full(&self) -> (r: bool)
        ensures
            r == (self.votes@.len() == self.max_size),
    {
        self.votes.len() == self.max_size
    }

    /// Only votes descending from the tower's current tip may enter.
    pub fn is_valid(&self, vote: &Vote, branch_tree: &HashMap<u64, Branch>) -> (r: bool)
        requires
            tree_wf(branch_tree@),
            tree_acyclic(branch_tree@),
        ensures
            r == is_ancestor(tip_spec(self.votes@, self.branch_trunk), vote.branch, branch_tree@),
    {
        let tip = self.last_branch();
        tip.is_trunk_of(&vote.branch, branch_tree)
    }

    /// Whether the vote at `depth` sits on a branch that more than half of the
    /// 100-node reference network has committed to.
    fn is_converged(&self, converge_map: &HashMap<u64, u64>, depth: usize) -> (r: bool)
        ensures
            r == converged_spec(self.votes@, converge_map@, depth as int),
    {
        match self.get_vote(depth) {
            Some(v) => {
                match converge_map.get(&v.branch.id) {
                    Some(c) => *c > 50,
                    None => false,
                }
            },
            None => true,
        }
    }

    /// Evicts the deepest expired vote and everything newer, leaving the
    /// unexpired deep suffix of the stack in place.
    fn rollback(&mut self, time: u64)
        requires
            forall|i: int| #![trigger old(self).votes@[i]] 0 <= i < old(self).votes@.len()
                ==> old(self).votes@[i].time + old(self).votes@[i].lockout <= u64::MAX,
        ensures
            final(self).votes@ == rollback_spec(old(self).votes@, time),
            final(self).max_size == old(self).max_size,
            final(self).branch_trunk == old(self).branch_trunk,
    {
        let ghost orig = self.votes@;
        let ghost ms = self.max_size;
        let ghost tr = self.branch_trunk;
        let n = self.votes.len();
        let mut evict: usize = 0;
        let mut i: usize = 0;
        while i < n
            invariant
                self.votes@ == orig,
                self.max_size == ms,
                self.branch_trunk == tr,
                n == orig.len(),
                0 <= i <= n,
                evict <= i,
                forall|k: int| #![trigger orig[k]] 0 <= k < orig.len()
                    ==> orig[k].time + orig[k].lockout <= u64::MAX,
                evict - 1 == expired_cutoff(orig.subrange(0, i as int), time),
            decreases n - i,
        {
            let lh = self.votes[i].lock_height();
            proof {
                lemma_cutoff_extend(orig, i as int, time);
            }
            if lh < time {
                evict = i + 1;
            }
            i = i + 1;
        }
        proof {
            assert(orig.subrange(0, n as int) =~= orig);
            lemma_cutoff_props(orig, time);
        }
        let mut j: usize = 0;
        while j < evict
            invariant
                self.max_size == ms,
                self.branch_trunk == tr,
                n == orig.len(),
                evict <= n,
                0 <= j <= evict,
                self.votes@ == orig.subrange(j as int, n as int),
            decreases evict - j,
        {
            self.votes.remove(0);
            proof {
                assert(orig.subrange(j as int, n as int).remove(0)
                    =~= orig.subrange(j as int + 1, n as int));
            }
            j = j + 1;
        }
        proof {
            assert(self.votes@ =~= rollback_spec(orig, time));
        }
    }

    /// Pushes `vote` on top, then walks top to bottom doubling each lockout
    /// that equals the (already updated) lockout above it.
    #[verifier::rlimit(100)]
    #[verifier::spinoff_prover]
    fn enter_vote(&mut self, vote: Vote)
        requires
            vote.lockout == 2,
            1 <= old(self).max_size <= 63,
            old(self).votes@.len() < old(self).max_size,
            lockouts_wf(old(self).votes@, old(self).max_size as nat),
            times_ordered(old(self).votes@),
            times_bounded(old(self).votes@, old(self).max_size as nat),
            forall|i: int| #![trigger old(self).votes@[i]] 0 <= i < old(self).votes@.len()
                ==> old(self).votes@[i].time <= vote.time,
            vote.time + pow2(old(self).max_size as nat) <= u64::MAX,
        ensures
            final(self).votes@ == enter_spec(old(self).votes@, vote),
            final(self).max_size == old(self).max_size,
            final(self).branch_trunk == old(self).branch_trunk,
            final(self).votes@.len() == old(self).votes@.len() + 1,
            final(self).votes@[0] == vote,
            forall|i: int| #![trigger final(self).votes@[i]] 1 <= i < final(self).votes@.len()
                ==> final(self).votes@[i].branch == old(self).votes@[i - 1].branch
                    && final(self).votes@[i].time == old(self).votes@[i - 1].time,
            lockouts_wf(final(self).votes@, old(self).max_size as nat),
            times_ordered(final(self).votes@),
            times_bounded(final(self).votes@, old(self).max_size as nat),
    {
        let ghost s0 = self.votes@;
        let ghost ms = self.max_size;
        let ghost tr = self.branch_trunk;
        let ghost cap = self.max_size as nat;
        self.votes.insert(0, vote);
        proof {
            assert(self.votes@ =~= seq![vote] + s0);
        }
        let ghost p = self.votes@;
        let n = self.votes.len();
        proof {
            assert forall|j: int| #![trigger p[j]] 1 <= j < p.len() implies is_lockout_value(
                p[j].lockout,
                cap,
            ) by {
                assert(p[j] == s0[j - 1]);
            }
            assert forall|a: int, b: int| #![trigger p[a], p[b]] 1 <= a && b == a + 1 && b
                < p.len() implies p[a].lockout * 2 <= p[b].lockout by {
                assert(p[a] == s0[a - 1]);
                assert(p[b] == s0[b - 1]);
            }
        }
        let mut i: usize = 1;
        while i < n
            invariant
                self.max_size == ms,
                self.branch_trunk == tr,
                cap == ms as nat,
                1 <= ms <= 63,
                vote.lockout == 2,
                p[0] == vote,
                n == p.len(),
                n <= ms,
                1 <= i <= n,
                forall|j: int| #![trigger p[j]] 1 <= j < p.len() ==> is_lockout_value(
                    p[j].lockout,
                    cap,
                ),
                forall|a: int, b: int| #![trigger p[a], p[b]] 1 <= a && b == a + 1 && b < p.len()
                    ==> p[a].lockout * 2 <= p[b].lockout,
                self.votes@ == cascade_upto(p, i as int),
                self.votes@.len() == n,
            decreases n - i,
        {
            proof {
                lemma_cascade_stage(p, cap, i as int);
            }
            let top = self.votes[i - 1].lockout;
            let cur = self.votes[i].lockout;
            let ghost pre = self.votes@;
            if cur == top {
                proof {
                    // equal neighbours only occur while the doubling run lasts
                    if run_ok(p, i as int) {
                        assert(top == pow2(i as nat));
                        lemma_pow2_unfold((i + 1) as nat);
                        lemma2_to64_rest();
                        if i + 1 < 63 {
                            lemma_pow2_strictly_increases((i + 1) as nat, 63);
                        }
                        assert(2 * pow2(i as nat) <= pow2(63));
                    } else {
                        assert(pre[i - 1] == p[i - 1]);
                        assert(pre[i as int] == p[i as int]);
                        assert(p[i - 1].lockout * 2 <= p[i as int].lockout);
                        lemma_lockout_ge_two(p[i - 1].lockout, cap);
                        assert(false);
                    }
                }
                let vcur = self.votes[i];
                self.votes[i] = Vote { branch: vcur.branch, time: vcur.time, lockout: cur * 2 };
                proof {
                    assert(doubled_vote(pre[i as int]) == self.votes@[i as int]);
                    assert(cascade_upto(p, i as int + 1) =~= self.votes@);
                }
            } else {
                proof {
                    assert(cascade_upto(p, i as int + 1) == pre);
                }
            }
            i = i + 1;
        }
        proof {
            assert(self.votes@ == cascade_upto(p, n as int));
            assert(enter_spec(s0, vote) == cascade_upto(p, n as int));
            lemma_cascade_stage(p, cap, n as int);
            let e = self.votes@;
            assert(e[0] == vote);
            assert forall|a: int| #![trigger e[a]] 1 <= a < e.len() implies e[a].branch == s0[a
                - 1].branch && e[a].time == s0[a - 1].time by {
                assert(e[a].branch == p[a].branch && e[a].time == p[a].time);
                assert(p[a] == s0[a - 1]);
            }
            assert(lockouts_wf(e, cap)) by {
                assert forall|j: int| #![trigger e[j]] 0 <= j < e.len() implies is_lockout_value(
                    e[j].lockout,
                    cap,
                ) by {
                    assert(is_lockout_value(cascade_upto(p, n as int)[j].lockout, cap));
                }
                assert forall|a: int, b: int| #![trigger e[a], e[b]] 0 <= a && b == a + 1 && b
                    < e.len() implies e[a].lockout * 2 <= e[b].lockout by {
                    assert(cascade_upto(p, n as int)[a].lockout * 2 <= cascade_upto(
                        p,
                        n as int,
                    )[b].lockout);
                }
            }
            assert forall|a: int, b: int| #![trigger e[a], e[b]] 0 <= a <= b < e.len()
                implies e[b].time <= e[a].time by {
                assert(e[a].time == p[a].time);
                assert(e[b].time == p[b].time);
                if a == 0 {
                    if b > 0 {
                        assert(p[b].time == s0[b - 1].time);
                        assert(s0[b - 1].time <= vote.time);
                    }
                } else {
                    assert(p[a].time == s0[a - 1].time);
                    assert(p[b].time == s0[b - 1].time);
                    assert(s0[b - 1].time <= s0[a - 1].time);
                }
            }
            assert forall|a: int| #![trigger e[a]] 0 <= a < e.len() implies e[a].time + pow2(cap)
                <= u64::MAX by {
                assert(e[a].time == p[a].time);
                if a > 0 {
                    assert(p[a].time == s0[a - 1].time);
                }
            }
        }
    }

    /// Pops the bottom vote of a full tower and finalizes its branch as the
    /// new trunk.
    fn pop_full(&mut self)
        requires
            old(self).max_size >= 1,
            old(self).votes@.len() == old(self).max_size,
        ensures
            final(self).votes@ == old(self).votes@.drop_last(),
            final(self).branch_trunk == old(self).votes@.last().branch,
            final(self).max_size == old(self).max_size,
    {
        let ghost s0 = self.votes@;
        let popped = self.votes.pop();
        match popped {
            Some(v) => {
                self.branch_trunk = v.branch;
            },
            None => {},
        }
        proof {
            assert(self.votes@ =~= s0.drop_last());
        }
    }

    /// Proposes `vote`.  Strictly expired votes are rolled back first; the
    /// vote is then accepted iff it descends from the surviving tip (or the
    /// trunk) and the vote at `depth` below the top is converged.  On
    /// acceptance the vote enters the stack, doubling equal adjacent lockouts,
    /// and a stack that reaches capacity finalizes its bottom vote into the
    /// trunk.
    #[verifier::rlimit(60)]
    #[verifier::spinoff_prover]
    pub fn push_vote(
        &mut self,
        vote: Vote,
        branch_tree: &HashMap<u64, Branch>,
        converge_map: &HashMap<u64, u64>,
        depth: usize,
    ) -> (accepted: bool)
        requires
            old(self).inv(),
            tree_wf(branch_tree@),
            tree_acyclic(branch_tree@),
            old(self).linked(branch_tree@),
            old(self).known(branch_tree@),
            vote.lockout == 2,
            old(self).votes@.len() > 0 ==> vote.time >= old(self).votes@[0].time,
            vote.time + pow2(old(self).max_size as nat) <= u64::MAX,
        ensures
            final(self).inv(),
            final(self).max_size == old(self).max_size,
            accepted == accepts(*old(self), vote, branch_tree@, converge_map@, depth as int),
            !accepted ==> final(self).votes@ == rollback_spec(old(self).votes@, vote.time)
                && final(self).branch_trunk == old(self).branch_trunk,
            accepted ==> final(self).votes@ == propose_result(*old(self), vote).0
                && final(self).branch_trunk == propose_result(*old(self), vote).1,
            !accepted ==> final(self).linked(branch_tree@) && final(self).known(branch_tree@),
            accepted && branch_known(vote.branch, branch_tree@) ==> final(self).linked(branch_tree@)
                && final(self).known(branch_tree@),
    {
        let ghost s_old = self.votes@;
        let ghost trunk0 = self.branch_trunk;
        let ghost cap = self.max_size as nat;
        let ghost tree = branch_tree@;
        proof {
            assert forall|i: int| #![trigger s_old[i]] 0 <= i < s_old.len() implies s_old[i].time
                + s_old[i].lockout <= u64::MAX by {
                lemma_lockout_le_cap(s_old[i].lockout, cap);
            }
        }
        self.rollback(vote.time);
        let ghost rolled = self.votes@;
        let ghost cut = expired_cutoff(s_old, vote.time);
        proof {
            lemma_cutoff_props(s_old, vote.time);
            lemma_subrange_preserves(s_old, cut + 1, s_old.len() as int, cap);
            lemma_subrange_links(s_old, trunk0, tree, cut + 1, s_old.len() as int);
        }
        if !self.is_valid(&vote, branch_tree) {
            return false;
        }
        if !self.is_converged(converge_map, depth) {
            return false;
        }
        proof {
            assert forall|i: int| #![trigger rolled[i]] 0 <= i < rolled.len()
                implies rolled[i].time <= vote.time by {
                assert(rolled[i] == s_old[cut + 1 + i]);
                assert(s_old[cut + 1 + i].time <= s_old[0].time);
            }
        }
        self.enter_vote(vote);
        let ghost entered = self.votes@;
        proof {
            if branch_known(vote.branch, tree) {
                lemma_enter_links(entered, rolled, trunk0, vote, tree);
            }
        }
        if self.is_full() {
            self.pop_full();
            proof {
                if branch_known(vote.branch, tree) {
                    lemma_pop_links(entered, tree);
                }
                lemma_subrange_preserves(entered, 0, entered.len() - 1, cap);
                assert(entered.drop_last() =~= entered.subrange(0, entered.len() - 1));
            }
        }
        true
    }
}

} // verus!
