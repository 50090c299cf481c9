use dag_commit::{
    AnchorElection, CertifiedNode, CommitRule, Dag, DagError, EpochState, LedgerInfo, NodeMetadata,
    OrderedBlocks, RoundRobinAnchorElection, ValidatorVerifier,
};

fn meta(round: u64, author: u64) -> NodeMetadata {
    NodeMetadata::new(round, author, round * 10 + author)
}

fn node(round: u64, author: u64, parents: &[u64]) -> CertifiedNode {
    let ps: Vec<NodeMetadata> = parents.iter().map(|a| meta(round - 1, *a)).collect();
    CertifiedNode::new(meta(round, author), ps)
}

/// Four validators of stake one; round 2 elects V0, round 4 V1, round 6 V2.
fn rule(committed_round: u64) -> CommitRule<RoundRobinAnchorElection> {
    let verifier = ValidatorVerifier::new(vec![1, 1, 1, 1]);
    let election = RoundRobinAnchorElection::new(vec![3, 0, 1, 2]);
    CommitRule::new(
        EpochState::new(1, verifier),
        LedgerInfo::new(committed_round, 99),
        Dag::new(1, 4),
        election,
    )
}

fn add(r: &mut CommitRule<RoundRobinAnchorElection>, round: u64, author: u64, parents: &[u64]) -> Vec<OrderedBlocks> {
    let n = node(round, author, parents);
    r.add_node(node(round, author, parents)).unwrap();
    r.new_node(&n)
}

fn positions(b: &OrderedBlocks) -> Vec<(u64, u64)> {
    b.ordered_nodes.iter().map(|m| (m.round, m.author)).collect()
}

/// Rounds 1 and 2 of the straight-line scenario: all of round 1, then
/// r2/V0 and r2/V1 on all of round 1.
fn rounds_one_two(r: &mut CommitRule<RoundRobinAnchorElection>) {
    for a in 0..4 {
        assert!(add(r, 1, a, &[]).is_empty());
    }
    assert!(add(r, 2, 0, &[0, 1, 2, 3]).is_empty());
    assert!(add(r, 2, 1, &[0, 1, 2, 3]).is_empty());
}

#[test]
fn straight_line_commit() {
    let mut r = rule(0);
    assert_eq!(r.lowest_unordered_round(), 1);
    rounds_one_two(&mut r);
    assert!(add(&mut r, 3, 0, &[0, 1]).is_empty());
    assert!(add(&mut r, 3, 1, &[0, 1]).is_empty());
    let out = add(&mut r, 3, 2, &[0, 1]);
    assert_eq!(out.len(), 1);
    assert_eq!(out[0].anchor, meta(2, 0));
    assert_eq!(positions(&out[0]), vec![(1, 0), (1, 1), (1, 2), (1, 3), (2, 0)]);
    assert!(out[0].failed_anchors.is_empty());
    assert_eq!(r.lowest_unordered_round(), 3);
    assert_eq!(r.ordered_block_id(), meta(2, 0).digest);
    assert!(r.dag().is_ordered(2, 0));
    assert!(!r.dag().is_ordered(2, 1));
}

/// Rounds 3 to 7 of the skipped-anchor scenario, on top of the straight
/// line; returns what each added node emitted, in order.
fn skipped_anchor_rounds(r: &mut CommitRule<RoundRobinAnchorElection>, reverse: bool) -> Vec<OrderedBlocks> {
    let rounds: Vec<(u64, Vec<(u64, Vec<u64>)>)> = vec![
        (3, vec![(0, vec![0, 1]), (1, vec![0, 1]), (2, vec![0, 1])]),
        (4, vec![(1, vec![0, 1, 2]), (2, vec![0, 1, 2])]),
        (5, vec![(0, vec![1]), (1, vec![1]), (2, vec![2])]),
        (6, vec![(2, vec![1, 2])]),
        (7, vec![(0, vec![2]), (1, vec![2]), (2, vec![2])]),
    ];
    let mut out = Vec::new();
    for (round, mut nodes) in rounds {
        if reverse {
            nodes.reverse();
        }
        for (a, ps) in nodes {
            out.extend(add(r, round, a, &ps));
        }
    }
    out
}

#[test]
fn skipped_anchor_then_backfill() {
    let mut r = rule(0);
    rounds_one_two(&mut r);
    let out = skipped_anchor_rounds(&mut r, false);
    // The first commit is the straight line; then r4/V1 by backfill, then r6/V2.
    assert_eq!(out.len(), 3);
    assert_eq!(out[1].anchor, meta(4, 1));
    assert_eq!(positions(&out[1]), vec![(2, 1), (3, 0), (3, 1), (3, 2), (4, 1)]);
    assert!(out[1].failed_anchors.is_empty());
    assert_eq!(out[2].anchor, meta(6, 2));
    assert_eq!(positions(&out[2]), vec![(4, 2), (5, 1), (5, 2), (6, 2)]);
    assert!(out[2].failed_anchors.is_empty());
    assert_eq!(r.lowest_unordered_round(), 7);
}

#[test]
fn silent_anchor() {
    let mut r = rule(0);
    for a in 0..4 {
        add(&mut r, 1, a, &[]);
    }
    for a in 1..4 {
        add(&mut r, 2, a, &[0, 1, 2, 3]);
    }
    for a in 0..3 {
        add(&mut r, 3, a, &[1, 2, 3]);
    }
    assert!(add(&mut r, 4, 1, &[0, 1, 2]).is_empty());
    assert!(add(&mut r, 5, 0, &[1]).is_empty());
    assert!(add(&mut r, 5, 1, &[1]).is_empty());
    let out = add(&mut r, 5, 2, &[1]);
    assert_eq!(out.len(), 1);
    assert_eq!(out[0].anchor, meta(4, 1));
    assert_eq!(out[0].failed_anchors, vec![0]);
    assert_eq!(out[0].ordered_nodes.len(), 4 + 3 + 3 + 1);
    assert_eq!(r.lowest_unordered_round(), 5);
}

#[test]
fn same_nodes_in_another_order_give_the_same_commits() {
    let mut r1 = rule(0);
    rounds_one_two(&mut r1);
    let out1 = skipped_anchor_rounds(&mut r1, false);
    let mut r2 = rule(0);
    for a in (0..4).rev() {
        add(&mut r2, 1, a, &[]);
    }
    add(&mut r2, 2, 1, &[3, 2, 1, 0]);
    add(&mut r2, 2, 0, &[3, 2, 1, 0]);
    let out2 = skipped_anchor_rounds(&mut r2, true);
    let view = |bs: &Vec<OrderedBlocks>| -> Vec<(NodeMetadata, Vec<NodeMetadata>, Vec<u64>)> {
        bs.iter().map(|b| (b.anchor, b.ordered_nodes.clone(), b.failed_anchors.clone())).collect()
    };
    assert_eq!(view(&out1).len(), 3);
    assert_eq!(view(&out1), view(&out2));
    assert_eq!(r1.lowest_unordered_round(), r2.lowest_unordered_round());
}

#[test]
fn replaying_a_node_is_a_noop() {
    let mut r = rule(0);
    rounds_one_two(&mut r);
    add(&mut r, 3, 0, &[0, 1]);
    add(&mut r, 3, 1, &[0, 1]);
    let n = node(3, 2, &[0, 1]);
    r.add_node(node(3, 2, &[0, 1])).unwrap();
    assert_eq!(r.new_node(&n).len(), 1);
    assert!(r.new_node(&n).is_empty());
    assert_eq!(r.lowest_unordered_round(), 3);
}

#[test]
fn node_at_cursor_round_commits_nothing() {
    let mut r = rule(0);
    let out = add(&mut r, 1, 0, &[]);
    assert!(out.is_empty());
    assert_eq!(r.find_first_anchor_with_enough_votes(1), None);
    assert_eq!(r.lowest_unordered_round(), 1);
}

#[test]
fn two_f_votes_are_not_enough() {
    let mut r = rule(0);
    rounds_one_two(&mut r);
    add(&mut r, 3, 0, &[0, 1]);
    add(&mut r, 3, 1, &[0, 1]);
    add(&mut r, 3, 2, &[1]);
    assert!(!r.dag().check_votes_for_node(&meta(2, 0), &ValidatorVerifier::new(vec![1, 1, 1, 1])));
    assert_eq!(r.find_first_anchor_with_enough_votes(3), None);
    assert_eq!(r.lowest_unordered_round(), 1);
}

#[test]
fn two_f_plus_one_votes_are_enough() {
    let mut r = rule(0);
    rounds_one_two(&mut r);
    add(&mut r, 3, 0, &[0, 1]);
    add(&mut r, 3, 1, &[0, 1]);
    r.add_node(node(3, 2, &[0, 1])).unwrap();
    assert!(r.dag().check_votes_for_node(&meta(2, 0), &ValidatorVerifier::new(vec![1, 1, 1, 1])));
    assert_eq!(r.find_first_anchor_with_enough_votes(3), Some(meta(2, 0)));
}

#[test]
fn backfill_returns_the_direct_anchor_when_none_is_earlier() {
    let mut r = rule(0);
    rounds_one_two(&mut r);
    add(&mut r, 3, 0, &[0, 1]);
    add(&mut r, 3, 1, &[0, 1]);
    r.add_node(node(3, 2, &[0, 1])).unwrap();
    assert_eq!(r.find_first_anchor_to_commit(meta(2, 0)), meta(2, 0));
    let b = r.finalize_order(meta(2, 0));
    assert_eq!(positions(&b), vec![(1, 0), (1, 1), (1, 2), (1, 3), (2, 0)]);
}

/// A full DAG: every validator in every round `1 ..= last`, each node on all
/// of the round below. Nothing is run.
fn full_dag(last: u64) -> CommitRule<RoundRobinAnchorElection> {
    let mut r = rule(0);
    for round in 1..=last {
        for a in 0..4 {
            let ps: Vec<u64> = if round == 1 { vec![] } else { vec![0, 1, 2, 3] };
            r.add_node(node(round, a, &ps)).unwrap();
        }
    }
    r
}

#[test]
fn backfill_chooses_the_earliest_committable_anchor() {
    let mut r = full_dag(7);
    assert_eq!(r.find_first_anchor_with_enough_votes(7), Some(meta(2, 0)));
    assert_eq!(r.find_first_anchor_to_commit(meta(6, 2)), meta(2, 0));
    assert_eq!(r.find_first_anchor_to_commit(meta(4, 1)), meta(2, 0));
    let out = r.new_node(&node(7, 0, &[0, 1, 2, 3]));
    let anchors: Vec<NodeMetadata> = out.iter().map(|b| b.anchor).collect();
    assert_eq!(anchors, vec![meta(2, 0), meta(4, 1), meta(6, 2)]);
    // The first commit orders r2/V0's closure; the later ones only what is left.
    assert_eq!(out[0].ordered_nodes.len(), 5);
    assert_eq!(positions(&out[1]), vec![(2, 1), (2, 2), (2, 3), (3, 0), (3, 1), (3, 2), (3, 3), (4, 1)]);
    assert_eq!(r.lowest_unordered_round(), 7);
}

#[test]
fn finalize_records_failed_anchors_and_moves_the_cursor() {
    let mut r = full_dag(7);
    let b = r.finalize_order(meta(6, 2));
    assert_eq!(b.failed_anchors, vec![0, 1]);
    assert_eq!(b.ordered_nodes.len(), 4 * 5 + 1);
    assert_eq!(*b.ordered_nodes.last().unwrap(), meta(6, 2));
    assert_eq!(r.lowest_unordered_round(), 7);
    assert_eq!(r.ordered_block_id(), meta(6, 2).digest);
}

#[test]
fn cursor_starts_one_past_the_committed_round() {
    let r = rule(4);
    assert_eq!(r.lowest_unordered_round(), 5);
    assert_eq!(r.ordered_block_id(), 99);
}

#[test]
fn search_skips_the_voting_round_at_the_cursor() {
    let mut r = full_dag(5);
    // The cursor at 3 (odd): search looks at round 4, not 3.
    let b = r.finalize_order(meta(2, 0));
    assert_eq!(b.anchor, meta(2, 0));
    assert_eq!(r.find_first_anchor_with_enough_votes(5), Some(meta(4, 1)));
    assert_eq!(r.find_first_anchor_with_enough_votes(4), None);
}

#[test]
fn round_robin_election() {
    let e = RoundRobinAnchorElection::new(vec![3, 0, 1, 2]);
    assert_eq!(e.get_anchor(0), 3);
    assert_eq!(e.get_anchor(1), 3);
    assert_eq!(e.get_anchor(2), 0);
    assert_eq!(e.get_anchor(4), 1);
    assert_eq!(e.get_anchor(6), 2);
    assert_eq!(e.get_anchor(8), 3);
    assert_eq!(RoundRobinAnchorElection::new(vec![]).get_anchor(5), 0);
}

#[test]
fn quorum_is_more_than_two_thirds() {
    let v = ValidatorVerifier::new(vec![1, 1, 1, 1]);
    assert_eq!(v.total_voting_power(), 4);
    assert_eq!(v.quorum_voting_power(), 3);
    let w = ValidatorVerifier::new(vec![1, 2, 3]);
    assert_eq!(w.total_voting_power(), 6);
    assert_eq!(w.quorum_voting_power(), 5);
    assert_eq!(w.get_voting_power(2), 3);
    assert_eq!(w.get_voting_power(7), 0);
    let big = ValidatorVerifier::new(vec![u64::MAX, u64::MAX, u64::MAX]);
    assert_eq!(big.quorum_voting_power(), 2 * (u64::MAX as u128) + 1);
}

#[test]
fn stake_weighted_votes() {
    let mut d = Dag::new(1, 3);
    d.add_node(node(1, 0, &[])).unwrap();
    d.add_node(node(2, 0, &[0])).unwrap();
    d.add_node(node(2, 2, &[0])).unwrap();
    let v = ValidatorVerifier::new(vec![1, 2, 3]);
    // Votes of V0 and V2 carry 4 of 6: short of 5.
    assert!(!d.check_votes_for_node(&meta(1, 0), &v));
    d.add_node(node(2, 1, &[0])).unwrap();
    assert!(d.check_votes_for_node(&meta(1, 0), &v));
}

#[test]
fn dag_refuses_bad_nodes() {
    let mut d = Dag::new(1, 4);
    assert_eq!(d.add_node(node(1, 4, &[])), Err(DagError::UnknownAuthor));
    assert_eq!(d.add_node(CertifiedNode::new(meta(0, 0), vec![])), Err(DagError::RoundOutOfRange));
    assert_eq!(d.add_node(node(2, 0, &[])), Err(DagError::RoundOutOfRange));
    assert_eq!(d.add_node(node(1, 0, &[])), Ok(()));
    assert_eq!(d.add_node(node(1, 0, &[])), Err(DagError::AlreadyExists));
    assert_eq!(d.add_node(node(2, 0, &[1])), Err(DagError::MissingParent));
    let wrong = CertifiedNode::new(meta(2, 0), vec![NodeMetadata::new(1, 0, 5)]);
    assert_eq!(d.add_node(wrong), Err(DagError::MissingParent));
    assert_eq!(d.add_node(node(2, 0, &[0])), Ok(()));
    assert_eq!(d.add_node(node(3, 1, &[])), Ok(()));
    assert!(d.get_node_by_round_author(2, 0).is_some());
    assert!(d.get_node_by_round_author(2, 1).is_none());
    assert_eq!(d.get_node_by_round_author(2, 0).unwrap().parents(), &vec![meta(1, 0)]);
}

#[test]
fn reachable_marks_follow_parents() {
    let mut d = Dag::new(1, 2);
    d.add_node(node(1, 0, &[])).unwrap();
    d.add_node(node(1, 1, &[])).unwrap();
    d.add_node(node(2, 0, &[1])).unwrap();
    d.add_node(node(3, 0, &[0])).unwrap();
    let marks = d.reachable_marks(&meta(3, 0), 0);
    assert_eq!(marks, vec![vec![true, false], vec![true, false], vec![false, true]]);
    let ordered = d.order_from(&meta(2, 0));
    assert_eq!(ordered, vec![meta(1, 1), meta(2, 0)]);
    assert!(d.is_ordered(1, 1));
    assert!(!d.is_ordered(1, 0));
    assert_eq!(d.order_from(&meta(3, 0)), vec![meta(3, 0)]);
    assert!(d.order_from(&meta(3, 0)).is_empty());
}

#[test]
fn no_node_is_emitted_twice() {
    let mut r = rule(0);
    rounds_one_two(&mut r);
    let mut out = skipped_anchor_rounds(&mut r, false);
    let mut full = full_dag(7);
    out.extend(full.new_node(&node(7, 0, &[0, 1, 2, 3])));
    let first: Vec<NodeMetadata> = out[..3].iter().flat_map(|b| b.ordered_nodes.clone()).collect();
    let second: Vec<NodeMetadata> = out[3..].iter().flat_map(|b| b.ordered_nodes.clone()).collect();
    for all in [first, second] {
        for i in 0..all.len() {
            for j in (i + 1)..all.len() {
                assert_ne!(all[i], all[j]);
            }
        }
    }
}

#[test]
fn parents_of_ordered_nodes_are_ordered() {
    let mut r = rule(0);
    rounds_one_two(&mut r);
    skipped_anchor_rounds(&mut r, false);
    let d = r.dag();
    let mut ordered = 0;
    for round in 1..=7u64 {
        for a in 0..4u64 {
            if d.is_ordered(round, a) {
                ordered += 1;
                for p in d.get_node_by_round_author(round, a).unwrap().parents() {
                    assert!(d.is_ordered(p.round, p.author));
                }
            }
        }
    }
    assert_eq!(ordered, 5 + 5 + 4);
    assert!(!d.is_ordered(5, 0));
}

#[test]
fn cursor_only_moves_up_and_stays_odd() {
    let mut r = full_dag(9);
    let mut last = r.lowest_unordered_round();
    for round in [3u64, 2, 5, 9, 9, 4] {
        r.new_node(&node(round, 0, &[0, 1, 2, 3]));
        let now = r.lowest_unordered_round();
        assert!(now >= last);
        assert_eq!(now % 2, 1);
        last = now;
    }
    assert_eq!(last, 9);
}
