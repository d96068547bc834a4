use std::collections::HashMap;

use locktower::ancestry::Branch;
use locktower::locktower::{LockTower, Vote};
use rand::{thread_rng, Rng};

fn create_network(sz: usize) -> Vec<LockTower> {
    (0..sz).map(|_| LockTower::new(32)).collect()
}

/// The "height" or "depth" of this branch: how many branches until it
/// connects to branch 0.
fn calc_branch_depth(branch_tree: &HashMap<u64, Branch>, id: u64) -> usize {
    let mut depth = 0;
    let mut start = branch_tree.get(&id);
    loop {
        if start.is_none() {
            break;
        }
        depth += 1;
        start = branch_tree.get(&start.unwrap().base);
    }
    depth
}

/// Map of `branch id` to `node count`: how many nodes have the branch as an
/// ancestor.  The branch with the highest count that is the newest is the
/// network "trunk".
fn calc_branch_map(
    network: &Vec<LockTower>,
    branch_tree: &HashMap<u64, Branch>,
) -> HashMap<u64, u64> {
    let mut lca_map: HashMap<u64, u64> = HashMap::new();
    for node in network {
        let mut start = node.last_branch();
        loop {
            *lca_map.entry(start.id).or_insert(0) += 1;
            if branch_tree.get(&start.base).is_none() {
                break;
            }
            start = *branch_tree.get(&start.base).unwrap();
        }
    }
    lca_map
}

/// Find the branch with the highest count of nodes that have it as an
/// ancestor, as well as with the highest possible branch id, which indicates
/// it is the newest.
fn calc_newest_trunk(bmap: &HashMap<u64, u64>) -> (u64, u64) {
    let mut data: Vec<_> = bmap.iter().collect();
    data.sort_by_key(|x| (x.1, x.0));
    data.last().map(|v| (*v.0, *v.1)).unwrap()
}

/// How common is the latest branch of all the nodes.
fn calc_tip_converged(network: &Vec<LockTower>, bmap: &HashMap<u64, u64>) -> u64 {
    let sum: u64 = network
        .iter()
        .map(|n| *bmap.get(&n.last_branch().id).unwrap_or(&0))
        .sum();
    sum / network.len() as u64
}

#[test]
fn test_no_partitions() {
    let mut tree = HashMap::new();
    let len = 100;
    let mut network = create_network(len);
    for rounds in 0..1 {
        for i in 0..network.len() {
            let time = (rounds * len + i) as u64;
            let base = network[i].last_branch();
            let branch = Branch { id: time + 1, base: base.id };
            tree.insert(branch.id, branch);
            let vote = Vote::new(branch, time);
            let bmap = calc_branch_map(&network, &tree);
            for node in network.iter_mut() {
                assert!(node.push_vote(vote, &tree, &bmap, 0));
            }
            println!("{} {}", time, calc_tip_converged(&network, &bmap));
        }
    }
    let bmap = calc_branch_map(&network, &tree);
    assert_eq!(calc_tip_converged(&network, &bmap), len as u64);
}

/// * num_partitions - 1 to 100 partitions
/// * fail_rate - 0 to 1.0 rate of packet receive failure
fn test_with_partitions(num_partitions: u64, fail_rate: f64) {
    let mut tree = HashMap::new();
    let len = 100;
    let mut network = create_network(len);
    let warmup = 8;
    for time in 0..warmup as u64 {
        let bmap = calc_branch_map(&network, &tree);
        for node in network.iter_mut() {
            let mut branch = node.last_branch();
            if branch.id == 0 {
                branch.id = thread_rng().gen_range(1..1 + num_partitions);
                tree.insert(branch.id, branch);
            }
            let vote = Vote::new(branch, time);
            assert!(node.is_valid(&vote, &tree));
            assert!(node.push_vote(vote, &tree, &bmap, warmup));
        }
    }
    for node in network.iter() {
        assert_eq!(node.votes.len(), warmup);
        assert_eq!(node.first_vote().unwrap().lockout, 1 << warmup);
        assert!(node.first_vote().unwrap().lock_height() >= 1 << warmup);
    }
    let bmap = calc_branch_map(&network, &tree);
    assert_ne!(calc_tip_converged(&network, &bmap), len as u64);
    for rounds in 0..40 {
        for i in 0..len {
            let time = (warmup + rounds * len + i) as u64;
            let base = network[i].last_branch();
            let branch = Branch { id: time + num_partitions, base: base.id };
            tree.insert(branch.id, branch);
            let bmap = calc_branch_map(&network, &tree);
            let vote = Vote::new(branch, time);
            for node in network.iter_mut() {
                if thread_rng().gen_range(0f64..1.0f64) < fail_rate {
                    continue;
                }
                node.push_vote(vote, &tree, &bmap, warmup);
            }
            let bmap = calc_branch_map(&network, &tree);
            let trunk = calc_newest_trunk(&bmap);
            let trunk_time = if trunk.0 > num_partitions { trunk.0 - num_partitions } else { trunk.0 };
            println!(
                "time: {}, tip converged: {}, trunk id: {}, trunk time: {}, trunk converged {}, trunk depth {}",
                time,
                calc_tip_converged(&network, &bmap),
                trunk.0,
                trunk_time,
                trunk.1,
                calc_branch_depth(&tree, trunk.0)
            );
            if calc_tip_converged(&network, &bmap) == len as u64 {
                break;
            }
        }
        let bmap = calc_branch_map(&network, &tree);
        if calc_tip_converged(&network, &bmap) == len as u64 {
            break;
        }
    }
    let bmap = calc_branch_map(&network, &tree);
    let trunk = calc_newest_trunk(&bmap);
    assert_eq!(trunk.1, len as u64);
}

#[test]
fn test_2_partitions() {
    test_with_partitions(2, 0.0)
}

#[test]
fn test_4_partitions() {
    test_with_partitions(4, 0.0)
}
