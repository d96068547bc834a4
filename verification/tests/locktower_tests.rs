use std::collections::HashMap;

use locktower::ancestry::Branch;
use locktower::locktower::{LockTower, Vote};

#[test]
fn test_is_trunk_of_1() {
    let tree = HashMap::new();
    let b1 = Branch { id: 1, base: 0 };
    let b2 = Branch { id: 2, base: 0 };
    assert!(!b1.is_trunk_of(&b2, &tree));
}

#[test]
fn test_is_trunk_of_2() {
    let tree = HashMap::new();
    let b1 = Branch { id: 1, base: 0 };
    let b2 = Branch { id: 0, base: 0 };
    assert!(!b1.is_trunk_of(&b2, &tree));
}

#[test]
fn test_is_trunk_of_3() {
    let tree = HashMap::new();
    let b1 = Branch { id: 1, base: 0 };
    let b2 = Branch { id: 1, base: 0 };
    assert!(b1.is_trunk_of(&b2, &tree));
}

#[test]
fn test_is_trunk_of_4() {
    let mut tree = HashMap::new();
    let b1 = Branch { id: 1, base: 0 };
    let b2 = Branch { id: 2, base: 1 };
    tree.insert(b1.id, b1);
    assert!(b1.is_trunk_of(&b2, &tree));
    assert!(!b2.is_trunk_of(&b1, &tree));
}

#[test]
fn test_is_trunk_of_deep_chain() {
    let mut tree = HashMap::new();
    let b1 = Branch { id: 1, base: 0 };
    let b2 = Branch { id: 2, base: 1 };
    let b3 = Branch { id: 3, base: 2 };
    tree.insert(b1.id, b1);
    tree.insert(b2.id, b2);
    tree.insert(b3.id, b3);
    let genesis = Branch { id: 0, base: 0 };
    assert!(b1.is_trunk_of(&b3, &tree));
    assert!(b2.is_trunk_of(&b3, &tree));
    assert!(b3.is_trunk_of(&b3, &tree));
    assert!(genesis.is_trunk_of(&b3, &tree));
    assert!(!b3.is_trunk_of(&b1, &tree));
    assert!(!b1.is_trunk_of(&genesis, &tree));
}

#[test]
fn test_push_vote() {
    let tree = HashMap::new();
    let bmap = HashMap::new();
    let b0 = Branch { id: 0, base: 0 };
    let mut node = LockTower::new(32);
    let vote = Vote::new(b0, 0);
    assert!(node.push_vote(vote, &tree, &bmap, 32));
    assert_eq!(node.votes.len(), 1);

    let vote = Vote::new(b0, 1);
    assert!(node.push_vote(vote, &tree, &bmap, 32));
    assert_eq!(node.votes.len(), 2);

    let vote = Vote::new(b0, 2);
    assert!(node.push_vote(vote, &tree, &bmap, 32));
    assert_eq!(node.votes.len(), 3);

    let vote = Vote::new(b0, 3);
    assert!(node.push_vote(vote, &tree, &bmap, 32));
    assert_eq!(node.votes.len(), 4);

    assert_eq!(node.votes[0].lockout, 2);
    assert_eq!(node.votes[1].lockout, 4);
    assert_eq!(node.votes[2].lockout, 8);
    assert_eq!(node.votes[3].lockout, 16);

    assert_eq!(node.votes[1].lock_height(), 6);
    assert_eq!(node.votes[2].lock_height(), 9);

    let vote = Vote::new(b0, 7);
    assert!(node.push_vote(vote, &tree, &bmap, 32));

    assert_eq!(node.votes[0].lockout, 2);

    let b1 = Branch { id: 1, base: 1 };
    let vote = Vote::new(b1, 8);
    assert!(!node.push_vote(vote, &tree, &bmap, 32));

    let vote = Vote::new(b0, 8);
    assert!(node.push_vote(vote, &tree, &bmap, 32));

    assert_eq!(node.votes.len(), 4);
    assert_eq!(node.votes[0].lockout, 2);
    assert_eq!(node.votes[1].lockout, 4);
    assert_eq!(node.votes[2].lockout, 8);
    assert_eq!(node.votes[3].lockout, 16);

    let vote = Vote::new(b0, 10);
    assert!(node.push_vote(vote, &tree, &bmap, 32));
    assert_eq!(node.votes.len(), 2);
    assert_eq!(node.votes[0].lockout, 2);
    assert_eq!(node.votes[1].lockout, 16);
}

#[test]
fn test_monotone_genesis_run() {
    let tree = HashMap::new();
    let bmap = HashMap::new();
    let b0 = Branch { id: 0, base: 0 };
    let mut node = LockTower::new(32);
    for time in 0..4u64 {
        assert!(node.push_vote(Vote::new(b0, time), &tree, &bmap, 32));
    }
    assert_eq!(node.votes.len(), 4);
    // newest on top: lockouts 2, 4, 8, 16 and lock heights 5, 6, 9, 16
    let lockouts: Vec<u64> = node.votes.iter().map(|v| v.lockout).collect();
    assert_eq!(lockouts, vec![2, 4, 8, 16]);
    let heights: Vec<u64> = node.votes.iter().map(|v| v.lock_height()).collect();
    assert_eq!(heights, vec![5, 6, 9, 16]);
}

#[test]
fn test_expiry_at_height_seven() {
    let tree = HashMap::new();
    let bmap = HashMap::new();
    let b0 = Branch { id: 0, base: 0 };
    let mut node = LockTower::new(32);
    for time in 0..4u64 {
        assert!(node.push_vote(Vote::new(b0, time), &tree, &bmap, 32));
    }
    // the two newest votes (lock heights 5 and 6) are expired at slot 7 and
    // are rolled back before the new vote enters
    assert!(node.push_vote(Vote::new(b0, 7), &tree, &bmap, 32));
    assert_eq!(node.votes.len(), 3);
    let lockouts: Vec<u64> = node.votes.iter().map(|v| v.lockout).collect();
    assert_eq!(lockouts, vec![2, 8, 16]);
}

#[test]
fn test_ancestry_reject() {
    let tree = HashMap::new();
    let bmap = HashMap::new();
    let b0 = Branch { id: 0, base: 0 };
    let mut node = LockTower::new(32);
    for time in 0..4u64 {
        assert!(node.push_vote(Vote::new(b0, time), &tree, &bmap, 32));
    }
    assert!(node.push_vote(Vote::new(b0, 7), &tree, &bmap, 32));
    // a branch absent from the registry and not descending from the tip
    let b1 = Branch { id: 1, base: 1 };
    assert!(!node.push_vote(Vote::new(b1, 8), &tree, &bmap, 32));
    assert_eq!(node.votes.len(), 3);
    let lockouts: Vec<u64> = node.votes.iter().map(|v| v.lockout).collect();
    assert_eq!(lockouts, vec![2, 8, 16]);
}

#[test]
fn test_same_branch_continues() {
    let tree = HashMap::new();
    let bmap = HashMap::new();
    let b0 = Branch { id: 0, base: 0 };
    let mut node = LockTower::new(32);
    for time in 0..4u64 {
        assert!(node.push_vote(Vote::new(b0, time), &tree, &bmap, 32));
    }
    assert!(node.push_vote(Vote::new(b0, 7), &tree, &bmap, 32));
    assert!(node.push_vote(Vote::new(b0, 8), &tree, &bmap, 32));
    assert_eq!(node.votes.len(), 4);
    let lockouts: Vec<u64> = node.votes.iter().map(|v| v.lockout).collect();
    assert_eq!(lockouts, vec![2, 4, 8, 16]);
}

#[test]
fn test_deep_expiry() {
    let tree = HashMap::new();
    let bmap = HashMap::new();
    let b0 = Branch { id: 0, base: 0 };
    let mut node = LockTower::new(32);
    for time in 0..4u64 {
        assert!(node.push_vote(Vote::new(b0, time), &tree, &bmap, 32));
    }
    assert!(node.push_vote(Vote::new(b0, 7), &tree, &bmap, 32));
    assert!(node.push_vote(Vote::new(b0, 8), &tree, &bmap, 32));
    // the vote at slot 1 (lock height 9) expires at slot 10 and takes the
    // newer votes above it along; only the bottom vote survives
    assert!(node.push_vote(Vote::new(b0, 10), &tree, &bmap, 32));
    assert_eq!(node.votes.len(), 2);
    let lockouts: Vec<u64> = node.votes.iter().map(|v| v.lockout).collect();
    assert_eq!(lockouts, vec![2, 16]);
}

#[test]
fn test_convergence_gate() {
    let tree = HashMap::new();
    let b0 = Branch { id: 0, base: 0 };
    let mut node = LockTower::new(32);
    let empty = HashMap::new();
    for time in 0..8u64 {
        assert!(node.push_vote(Vote::new(b0, time), &tree, &empty, 32));
    }
    assert_eq!(node.votes.len(), 8);
    // the vote at depth 7 sits on branch 0; 40 of 100 nodes is below the
    // majority threshold of 51
    let mut bmap = HashMap::new();
    bmap.insert(0u64, 40u64);
    assert!(!node.push_vote(Vote::new(b0, 8), &tree, &bmap, 7));
    assert_eq!(node.votes.len(), 8);
    // 60 of 100 clears the threshold
    bmap.insert(0u64, 60u64);
    assert!(node.push_vote(Vote::new(b0, 8), &tree, &bmap, 7));
    assert_eq!(node.votes.len(), 9);
}

#[test]
fn test_convergence_exact_threshold() {
    let tree = HashMap::new();
    let b0 = Branch { id: 0, base: 0 };
    let mut node = LockTower::new(32);
    let empty = HashMap::new();
    for time in 0..8u64 {
        assert!(node.push_vote(Vote::new(b0, time), &tree, &empty, 32));
    }
    // exactly half the network is not a majority; one more node is
    let mut bmap = HashMap::new();
    bmap.insert(0u64, 50u64);
    assert!(!node.push_vote(Vote::new(b0, 8), &tree, &bmap, 7));
    bmap.insert(0u64, 51u64);
    assert!(node.push_vote(Vote::new(b0, 8), &tree, &bmap, 7));
}

#[test]
fn test_convergence_missing_entry_counts_zero() {
    let tree = HashMap::new();
    let b0 = Branch { id: 0, base: 0 };
    let mut node = LockTower::new(32);
    let empty = HashMap::new();
    for time in 0..8u64 {
        assert!(node.push_vote(Vote::new(b0, time), &tree, &empty, 32));
    }
    // an absent entry for the depth-7 branch counts as zero supporters
    let mut bmap = HashMap::new();
    bmap.insert(7u64, 100u64);
    assert!(!node.push_vote(Vote::new(b0, 8), &tree, &bmap, 7));
}

#[test]
fn test_finalization_at_capacity() {
    let mut tree = HashMap::new();
    let bmap = HashMap::new();
    let mut node = LockTower::new(32);
    // a single chain of branches: 1 <- 2 <- ... <- 33, voted in order
    for k in 0..33u64 {
        let branch = Branch { id: k + 1, base: k };
        tree.insert(branch.id, branch);
        assert!(node.push_vote(Vote::new(branch, k), &tree, &bmap, 32));
        if k < 31 {
            assert_eq!(node.votes.len(), (k + 1) as usize);
            assert_eq!(node.branch_trunk.id, 0);
        }
    }
    // the 32nd accepted proposal filled the tower and finalized branch 1 with
    // the full lockout of 2^32; the 33rd finalized branch 2
    assert_eq!(node.votes.len(), 31);
    assert_eq!(node.branch_trunk.id, 2);
    assert_eq!(node.first_vote().unwrap().lockout, 1u64 << 31);
    assert_eq!(node.last_branch().id, 33);
}

#[test]
fn test_empty_tower() {
    let node = LockTower::new(32);
    assert_eq!(node.last_branch().id, 0);
    assert_eq!(node.last_branch().base, 0);
    assert!(node.first_vote().is_none());
    assert_eq!(node.votes.len(), 0);
}

#[test]
fn test_vote_primitives() {
    let b = Branch { id: 3, base: 1 };
    let v = Vote::new(b, 5);
    assert_eq!(v.lockout, 2);
    assert_eq!(v.time, 5);
    assert_eq!(v.branch.id, 3);
    assert_eq!(v.lock_height(), 7);

    let mut tree = HashMap::new();
    let b1 = Branch { id: 1, base: 0 };
    tree.insert(b1.id, b1);
    tree.insert(b.id, b);
    let w = Vote::new(b1, 4);
    assert!(w.is_trunk_of(&v, &tree));
    assert!(!v.is_trunk_of(&w, &tree));
}
