//! The laws the tower obeys, stated and proved over the spec-level model that
//! the executable functions' contracts expose.

use vstd::prelude::*;

verus! {

use vstd::arithmetic::power2::pow2;
use vstd::arithmetic::power2::lemma_pow2_strictly_increases;
use vstd::arithmetic::power2::lemma2_to64;
use vstd::arithmetic::power2::lemma2_to64_rest;
use crate::ancestry::Branch;
use crate::ancestry::branch_known;
use crate::ancestry::is_ancestor;
use crate::ancestry::lemma_ancestor_transitive;
use crate::ancestry::tree_wf;
use crate::locktower::LockTower;
use crate::locktower::Vote;
use crate::locktower::accepts;
use crate::locktower::cascade_upto;
use crate::locktower::doubled_vote;
use crate::locktower::enter_spec;
use crate::locktower::expired_cutoff;
use crate::locktower::lemma_cutoff_props;
use crate::locktower::lemma_lockout_le_cap;
use crate::locktower::rollback_spec;
use crate::locktower::tip_spec;

/// After every accepted proposal the tower's advertised invariants hold:
/// `push_vote` ensures `inv` always, and `linked` whenever the accepted
/// vote's branch agrees with the registry.  This lemma unpacks the two into
/// the five stack invariants: lockouts never decrease with depth; every vote
/// descends from the vote below it; no lockout exceeds the finalization
/// lockout `pow2(max_size)` (`2^32` at the canonical capacity of 32); slots
/// never increase with depth; and every vote — expired or not — is an
/// ancestor of the tower's tip.
pub proof fn lemma_accepted_invariants(t: LockTower, tree: Map<u64, Branch>)
    requires
        t.inv(),
        t.linked(tree),
    ensures
        forall|i: int, j: int| #![trigger t.votes@[i], t.votes@[j]] 0 <= i && j == i + 1 && j
            < t.votes@.len() ==> t.votes@[i].lockout <= t.votes@[j].lockout,
        forall|i: int, j: int| #![trigger t.votes@[i], t.votes@[j]] 0 <= i && j == i + 1 && j
            < t.votes@.len() ==> is_ancestor(t.votes@[j].branch, t.votes@[i].branch, tree),
        forall|i: int| #![trigger t.votes@[i]] 0 <= i < t.votes@.len() ==> t.votes@[i].lockout
            <= pow2(t.max_size as nat),
        forall|i: int, j: int| #![trigger t.votes@[i], t.votes@[j]] 0 <= i && j == i + 1 && j
            < t.votes@.len() ==> t.votes@[j].time <= t.votes@[i].time,
        forall|i: int| #![trigger t.votes@[i]] 0 <= i < t.votes@.len() ==> is_ancestor(
            t.votes@[i].branch,
            tip_spec(t.votes@, t.branch_trunk),
            tree,
        ),
{
    let s = t.votes@;
    assert forall|i: int| #![trigger s[i]] 0 <= i < s.len() implies s[i].lockout <= pow2(
        t.max_size as nat,
    ) by {
        lemma_lockout_le_cap(s[i].lockout, t.max_size as nat);
    }
    assert forall|i: int| #![trigger s[i]] 0 <= i < s.len() implies is_ancestor(
        s[i].branch,
        tip_spec(s, t.branch_trunk),
        tree,
    ) by {
        assert(is_ancestor(s[i].branch, s[0].branch, tree));
    }
}

/// Lockout safety of accepted proposals: when `propose` accepts a vote, every
/// prior vote whose lockout is still active at the new slot — and that was
/// not swept out by a newer expired vote above it — lies on an ancestor of
/// the accepted branch.  (A vote above the deepest expired vote is evicted
/// with it even if its own lockout is active; eviction releases that
/// commitment, so nothing is promised for it.)
pub proof fn lemma_survivors_are_ancestors(
    t: LockTower,
    v: Vote,
    tree: Map<u64, Branch>,
    cmap: Map<u64, u64>,
    depth: int,
    i: int,
)
    requires
        tree_wf(tree),
        t.linked(tree),
        t.known(tree),
        branch_known(v.branch, tree),
        accepts(t, v, tree, cmap, depth),
        0 <= i < t.votes@.len(),
        forall|j: int| #![trigger t.votes@[j]] i <= j < t.votes@.len()
            ==> t.votes@[j].lock_height_spec() >= v.time,
    ensures
        is_ancestor(t.votes@[i].branch, v.branch, tree),
{
    let s = t.votes@;
    lemma_cutoff_props(s, v.time);
    let cut = expired_cutoff(s, v.time);
    assert(cut < i) by {
        if cut >= i {
            assert(s[cut].lock_height_spec() >= v.time);
        }
    }
    let rolled = rollback_spec(s, v.time);
    assert(rolled[0] == s[cut + 1]);
    assert(tip_spec(rolled, t.branch_trunk) == s[cut + 1].branch);
    assert(is_ancestor(s[i].branch, s[cut + 1].branch, tree));
    assert(branch_known(s[cut + 1].branch, tree));
    lemma_ancestor_transitive(s[i].branch, s[cut + 1].branch, v.branch, tree);
}

/// The tower's tip never leaves the caller's registry: it is the newest
/// vote's branch — or the trunk when the stack is empty — and, as long as the
/// tower's branches agree with the registry, it is the genesis branch or a
/// registered one.
pub proof fn lemma_tip_known(t: LockTower, tree: Map<u64, Branch>)
    requires
        t.known(tree),
    ensures
        tip_spec(t.votes@, t.branch_trunk) == if t.votes@.len() > 0 {
            t.votes@[0].branch
        } else {
            t.branch_trunk
        },
        branch_known(tip_spec(t.votes@, t.branch_trunk), tree),
{
    if t.votes@.len() > 0 {
        assert(branch_known(t.votes@[0].branch, tree));
    }
}

/// The stack is geometric when position `i` holds exactly the lockout
/// `pow2(i + 1)`: the canonical 2, 4, 8, ... progression of a fork that is
/// voted on without interruption.
pub open spec fn geometric(s: Seq<Vote>) -> bool {
    forall|i: int| #![trigger s[i]] 0 <= i < s.len() ==> s[i].lockout == pow2((i + 1) as nat)
}

/// On a geometric stack the doubling pass doubles every position below the
/// fresh vote.
proof fn lemma_cascade_geometric(p: Seq<Vote>, i: int)
    requires
        1 <= p.len() <= 63,
        p[0].lockout == 2,
        forall|j: int| #![trigger p[j]] 1 <= j < p.len() ==> p[j].lockout == pow2(j as nat),
        1 <= i <= p.len(),
    ensures
        cascade_upto(p, i).len() == p.len(),
        cascade_upto(p, i)[0] == p[0],
        forall|j: int| #![trigger cascade_upto(p, i)[j]] 1 <= j < i ==> cascade_upto(p, i)[j]
            == doubled_vote(p[j]),
        forall|j: int| #![trigger cascade_upto(p, i)[j]] i <= j < p.len() ==> cascade_upto(p, i)[j]
            == p[j],
    decreases i,
{
    lemma2_to64();
    lemma2_to64_rest();
    if i == 1 {
        assert(cascade_upto(p, i) == p);
    } else {
        lemma_cascade_geometric(p, i - 1);
        let t0 = cascade_upto(p, i - 1);
        assert(t0[i - 1] == p[i - 1]);
        assert(pow2((i - 1) as nat) < pow2(63)) by {
            if i - 1 < 63 {
                lemma_pow2_strictly_increases((i - 1) as nat, 63);
            }
        }
        if i == 2 {
            assert(t0[0].lockout == 2);
            assert(p[1].lockout == pow2(1));
            assert(t0[i - 1].lockout == t0[i - 2].lockout);
        } else {
            assert(t0[i - 2] == doubled_vote(p[i - 2]));
            assert(pow2((i - 2) as nat) * 2 == pow2((i - 1) as nat)) by {
                vstd::arithmetic::power2::lemma_pow2_unfold((i - 1) as nat);
            }
            assert(t0[i - 2].lockout == pow2((i - 1) as nat));
            assert(t0[i - 1].lockout == t0[i - 2].lockout);
        }
        assert(cascade_upto(p, i) == t0.update(i - 1, doubled_vote(t0[i - 1])));
    }
}

/// Finalization under uninterrupted voting.  A fresh vote at a slot that expires nothing is
/// entered into a geometric stack by doubling every lockout, so the stack
/// stays geometric and its bottom lockout reaches `pow2(len + 1)`.  After 32
/// uninterrupted accepted proposals on one fork a tower of the canonical
/// capacity 32 therefore pops its bottom vote with the final lockout `2^32`,
/// and `push_vote`'s contract promotes exactly that vote's branch to the
/// trunk.
pub proof fn lemma_geometric_finalization(s: Seq<Vote>, v: Vote)
    requires
        geometric(s),
        v.lockout == 2,
        s.len() + 1 <= 63,
        forall|i: int| #![trigger s[i]] 0 <= i < s.len() ==> s[i].lock_height_spec() >= v.time,
    ensures
        rollback_spec(s, v.time) == s,
        enter_spec(s, v).len() == s.len() + 1,
        geometric(enter_spec(s, v)),
        enter_spec(s, v).last().lockout == pow2((s.len() + 1) as nat),
        enter_spec(s, v).last().branch == if s.len() > 0 {
            s.last().branch
        } else {
            v.branch
        },
        enter_spec(s, v)[0].branch == v.branch,
        forall|i: int| #![trigger enter_spec(s, v)[i]] 1 <= i < enter_spec(s, v).len()
            ==> enter_spec(s, v)[i].branch == s[i - 1].branch,
{
    lemma2_to64();
    lemma2_to64_rest();
    lemma_cutoff_props(s, v.time);
    let cut = expired_cutoff(s, v.time);
    assert(cut == -1) by {
        if cut >= 0 {
            assert(s[cut].lock_height_spec() >= v.time);
        }
    }
    assert(s.subrange(0, s.len() as int) =~= s);
    let p = seq![v] + s;
    let n = (s.len() + 1) as int;
    assert forall|j: int| #![trigger p[j]] 1 <= j < p.len() implies p[j].lockout == pow2(j as nat)
        by {
        assert(p[j] == s[j - 1]);
    }
    lemma_cascade_geometric(p, n);
    let e = enter_spec(s, v);
    assert(e == cascade_upto(p, n));
    assert forall|i: int| #![trigger e[i]] 0 <= i < e.len() implies e[i].lockout == pow2(
        (i + 1) as nat,
    ) by {
        if i == 0 {
            assert(e[0] == p[0]);
        } else {
            assert(e[i] == doubled_vote(p[i]));
            assert(p[i].lockout == pow2(i as nat));
            assert(pow2(i as nat) * 2 == pow2((i + 1) as nat)) by {
                vstd::arithmetic::power2::lemma_pow2_unfold((i + 1) as nat);
            }
            assert(pow2((i + 1) as nat) <= pow2(63)) by {
                if i + 1 < 63 {
                    lemma_pow2_strictly_increases((i + 1) as nat, 63);
                }
            }
        }
    }
    assert(e.last().lockout == pow2((s.len() + 1) as nat));
    if s.len() > 0 {
        assert(e.last() == doubled_vote(p[n - 1]));
        assert(p[n - 1] == s[s.len() - 1]);
    } else {
        assert(e.last() == p[0]);
    }
    assert(e[0] == p[0]);
    assert forall|i: int| #![trigger e[i]] 1 <= i < e.len() implies e[i].branch == s[i - 1].branch
        by {
        assert(e[i] == doubled_vote(p[i]));
        assert(p[i] == s[i - 1]);
    }
}

/// The tower a fresh one (anchored at `trunk` with capacity `cap`) holds
/// after a sequence of accepted proposals `vs`, by the contract of
/// `push_vote`: each proposal is rolled back, entered, and — when the stack
/// reaches capacity — the bottom vote is popped and finalized.
pub open spec fn run_result(trunk: Branch, cap: int, vs: Seq<Vote>) -> (Seq<Vote>, Branch)
    decreases vs.len(),
{
    if vs.len() == 0 {
        (Seq::empty(), trunk)
    } else {
        let prev = run_result(trunk, cap, vs.drop_last());
        let entered = enter_spec(rollback_spec(prev.0, vs.last().time), vs.last());
        if entered.len() == cap {
            (entered.drop_last(), entered.last().branch)
        } else {
            (entered, prev.1)
        }
    }
}

/// No proposal of the run finds an expired vote in the tower: every proposal
/// arrives before any active lockout has elapsed, so no rollback ever evicts.
pub open spec fn run_no_expiry(trunk: Branch, cap: int, vs: Seq<Vote>) -> bool {
    forall|j: int, m: int|
        #![trigger run_result(trunk, cap, vs.take(j)).0[m], vs[j]]
        0 <= j < vs.len() && 0 <= m < run_result(trunk, cap, vs.take(j)).0.len() ==> run_result(
            trunk,
            cap,
            vs.take(j),
        ).0[m].lock_height_spec() >= vs[j].time
}

/// A fresh tower that accepts `k` proposals without any rollback always holds
/// a geometric stack of the newest proposals.  While the tower is filling the
/// trunk stays put; from the `cap`-th proposal on, every proposal finalizes
/// the proposal `cap` positions back: the trunk becomes that vote's branch,
/// and the vote leaves the stack with the full lockout `pow2(cap)` (`2^32`
/// at the canonical capacity of 32).
pub proof fn lemma_geometric_finalization_run(trunk0: Branch, cap: int, vs: Seq<Vote>, k: int)
    requires
        2 <= cap <= 63,
        forall|j: int| #![trigger vs[j]] 0 <= j < vs.len() ==> vs[j].lockout == 2,
        run_no_expiry(trunk0, cap, vs),
        0 <= k <= vs.len(),
    ensures
        geometric(run_result(trunk0, cap, vs.take(k)).0),
        run_result(trunk0, cap, vs.take(k)).0.len() == if k < cap {
            k
        } else {
            cap - 1
        },
        forall|m: int|
            #![trigger run_result(trunk0, cap, vs.take(k)).0[m]]
            0 <= m < run_result(trunk0, cap, vs.take(k)).0.len() ==> run_result(
                trunk0,
                cap,
                vs.take(k),
            ).0[m].branch == vs[k - 1 - m].branch,
        k < cap ==> run_result(trunk0, cap, vs.take(k)).1 == trunk0,
        k >= cap ==> run_result(trunk0, cap, vs.take(k)).1 == vs[k - cap].branch,
        k >= cap ==> enter_spec(run_result(trunk0, cap, vs.take(k - 1)).0, vs[k
            - 1]).last().lockout == pow2(cap as nat),
    decreases k,
{
    if k == 0 {
        assert(vs.take(0) =~= Seq::<Vote>::empty());
    } else {
        lemma_geometric_finalization_run(trunk0, cap, vs, k - 1);
        let pre = vs.take(k);
        assert(pre.drop_last() =~= vs.take(k - 1));
        assert(pre.last() == vs[k - 1]);
        let s1 = run_result(trunk0, cap, vs.take(k - 1)).0;
        let tr1 = run_result(trunk0, cap, vs.take(k - 1)).1;
        assert forall|m: int| #![trigger s1[m]] 0 <= m < s1.len()
            implies s1[m].lock_height_spec() >= vs[k - 1].time by {
            assert(run_result(trunk0, cap, vs.take(k - 1)).0[m].lock_height_spec() >= vs[k
                - 1].time);
        }
        lemma_geometric_finalization(s1, vs[k - 1]);
        let entered = enter_spec(s1, vs[k - 1]);
        assert(run_result(trunk0, cap, pre) == if entered.len() == cap {
            (entered.drop_last(), entered.last().branch)
        } else {
            (entered, tr1)
        });
        if entered.len() == cap {
            let s = entered.drop_last();
            assert(s.len() == cap - 1);
            assert forall|m: int| #![trigger s[m]] 0 <= m < s.len() implies s[m].lockout == pow2(
                (m + 1) as nat,
            ) && s[m].branch == vs[k - 1 - m].branch by {
                assert(s[m] == entered[m]);
                if m >= 1 {
                    assert(entered[m].branch == s1[m - 1].branch);
                    assert(s1[m - 1].branch == vs[(k - 1) - 1 - (m - 1)].branch);
                }
            }
            assert(s1.len() == cap - 1);
            assert(entered.last().branch == s1.last().branch);
            assert(s1[cap - 2].branch == vs[(k - 1) - 1 - (cap - 2)].branch);
            assert(run_result(trunk0, cap, vs.take(k)).1 == vs[k - cap].branch);
        } else {
            assert(entered.len() == s1.len() + 1);
            assert(s1.len() == k - 1 && k < cap);
            assert forall|m: int| #![trigger entered[m]] 0 <= m < entered.len()
                implies entered[m].branch == vs[k - 1 - m].branch by {
                if m >= 1 {
                    assert(entered[m].branch == s1[m - 1].branch);
                    assert(s1[m - 1].branch == vs[(k - 1) - 1 - (m - 1)].branch);
                }
            }
        }
    }
}

/// Rollback removes only a contiguous run at the newest
/// end of the stack, ending at the deepest expired vote: every expired vote
/// is evicted, every vote below the cutoff survives unexpired, and if a vote
/// survives then so does every vote deeper than it.
pub proof fn lemma_rollback_monotone(s: Seq<Vote>, time: u64)
    ensures
        -1 <= expired_cutoff(s, time) < s.len(),
        rollback_spec(s, time) == s.subrange(expired_cutoff(s, time) + 1, s.len() as int),
        forall|i: int| #![trigger s[i]] 0 <= i < s.len() && s[i].lock_height_spec() < time ==> i
            <= expired_cutoff(s, time),
        forall|j: int| #![trigger s[j]] expired_cutoff(s, time) < j < s.len()
            ==> s[j].lock_height_spec() >= time,
        expired_cutoff(s, time) >= 0 ==> s[expired_cutoff(s, time)].lock_height_spec() < time,
{
    lemma_cutoff_props(s, time);
}

} // verus!
