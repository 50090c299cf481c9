//! What holds of every run of the commit rule, proved over the spec
//! functions that its methods' contracts state.
use vstd::prelude::*;
use crate::commit_rule::{
    anchor_match, anchor_pos, backfill, committable, drive, earliest_from, finalize, first_anchor_round,
    first_committable, lemma_earliest_idempotent, lemma_first_committable, search, CommitModel, OrderedBlocksView,
};
use crate::dag::{lemma_batch, lemma_order_from_wf, lemma_reachable_has, lemma_reachable_same_nodes, DagModel, Pos};
use crate::election::AnchorElection;
use crate::epoch::ValidatorVerifier;
use crate::types::NodeMetadata;

verus! {

/// The anchor that the driver commits when search finds one: it is in the
/// DAG, on an anchor round, at or above the cursor and below `round`.
pub proof fn lemma_commit_anchor<E: AnchorElection>(m: CommitModel, v: ValidatorVerifier, e: E, round: int)
    requires
        m.dag.wf(),
        search(m, v, e, round) is Some,
    ensures
        ({
            let a = backfill(m, e, search(m, v, e, round)->0);
            &&& m.dag.has(a.pos())
            &&& m.dag.nodes[a.pos()].metadata == a
            &&& m.lowest_unordered_round <= a.round < round
            &&& a.round % 2 == 0
        }),
{
    let r0 = first_anchor_round(m.lowest_unordered_round);
    lemma_first_committable(m.dag, v, e, r0, round);
    let a0 = search(m, v, e, round)->0;
    lemma_earliest_idempotent(m.dag, e, a0, m.lowest_unordered_round);
}

/// Where the driver stops: the cursor is past `round`, or search finds no
/// anchor.
pub open spec fn stopped<E: AnchorElection>(m: CommitModel, v: ValidatorVerifier, e: E, round: int) -> bool {
    m.lowest_unordered_round > round || search(m, v, e, round) is None
}

/// `s` and `t` have no element in common.
pub open spec fn disjoint(s: Seq<NodeMetadata>, t: Seq<NodeMetadata>) -> bool {
    forall|i: int, j: int| 0 <= i < s.len() && 0 <= j < t.len() ==> s[i] != t[j]
}

/// What the driver does to the state and what it emits, in one statement:
/// the DAG stays well formed with the same nodes and only gains ordered
/// nodes; the cursor does not go down, and where it moves it lands one past
/// an anchor round; every emitted node was unordered before and is ordered
/// after; no node is emitted twice; and the driver ends where it stops.
pub proof fn lemma_drive<E: AnchorElection>(m: CommitModel, v: ValidatorVerifier, e: E, round: int)
    requires
        m.dag.wf(),
    ensures
        ({
            let (m2, bs) = drive(m, v, e, round);
            &&& m2.dag.wf()
            &&& m2.dag.nodes == m.dag.nodes
            &&& m2.dag.start_round == m.dag.start_round
            &&& m2.dag.num_validators == m.dag.num_validators
            &&& m.dag.ordered.subset_of(m2.dag.ordered)
            &&& m.lowest_unordered_round <= m2.lowest_unordered_round
            &&& (m2.lowest_unordered_round == m.lowest_unordered_round || m2.lowest_unordered_round % 2 == 1)
            &&& forall|i: int, j: int|
                0 <= i < bs.len() && 0 <= j < bs[i].ordered_nodes.len() ==> {
                    let x = #[trigger] bs[i].ordered_nodes[j];
                    &&& !m.dag.ordered.contains(x.pos())
                    &&& m2.dag.ordered.contains(x.pos())
                }
            &&& forall|i: int| 0 <= i < bs.len() ==> (#[trigger] bs[i]).ordered_nodes.no_duplicates()
            &&& forall|i: int, k: int|
                0 <= i < k < bs.len() ==> disjoint(#[trigger] bs[i].ordered_nodes, #[trigger] bs[k].ordered_nodes)
            &&& stopped(m2, v, e, round)
        }),
    decreases round + 1 - m.lowest_unordered_round,
{
    if m.lowest_unordered_round <= round {
        if let Some(a0) = search(m, v, e, round) {
            let a = backfill(m, e, a0);
            lemma_commit_anchor(m, v, e, round);
            let (m1, b) = finalize(m, e, a);
            lemma_order_from_wf(m.dag, a.pos());
            lemma_batch(m.dag, a.pos());
            assert(m.lowest_unordered_round < m1.lowest_unordered_round <= round + 1);
            lemma_drive(m1, v, e, round);
            let (m2, bs1) = drive(m1, v, e, round);
            let bs = drive(m, v, e, round).1;
            assert(bs == seq![b] + bs1);
            assert forall|i: int, j: int| 0 <= i < bs.len() && 0 <= j < bs[i].ordered_nodes.len() implies {
                let x = #[trigger] bs[i].ordered_nodes[j];
                &&& !m.dag.ordered.contains(x.pos())
                &&& m2.dag.ordered.contains(x.pos())
            } by {
                if i == 0 {
                    assert(bs[0] == b);
                    assert(b.ordered_nodes[j] == m.dag.batch(a.pos())[j]);
                } else {
                    assert(bs[i] == bs1[i - 1]);
                    let x = bs1[i - 1].ordered_nodes[j];
                    assert(!m1.dag.ordered.contains(x.pos()));
                }
            }
            assert forall|i: int| 0 <= i < bs.len() implies (#[trigger] bs[i]).ordered_nodes.no_duplicates() by {
                if i > 0 {
                    assert(bs[i] == bs1[i - 1]);
                }
            }
            assert forall|i: int, k: int|
                0 <= i < k < bs.len() implies disjoint(#[trigger] bs[i].ordered_nodes, #[trigger] bs[k].ordered_nodes) by {
                assert(bs[k] == bs1[k - 1]);
                if i == 0 {
                    assert(bs[0] == b);
                    assert forall|p: int, q: int|
                        0 <= p < bs[i].ordered_nodes.len() && 0 <= q < bs[k].ordered_nodes.len() implies bs[i].ordered_nodes[p]
                            != bs[k].ordered_nodes[q] by {
                        let x = b.ordered_nodes[p];
                        assert(x == m.dag.batch(a.pos())[p]);
                        assert(m1.dag.ordered.contains(x.pos()));
                        let y = bs1[k - 1].ordered_nodes[q];
                        assert(!m1.dag.ordered.contains(y.pos()));
                    }
                } else {
                    assert(bs[i] == bs1[i - 1]);
                }
            }
        }
    }
}

/// The cursor never goes down: after the driver runs, `lowest_unordered_round`
/// is at least what it was.
pub proof fn lemma_cursor_monotone<E: AnchorElection>(m: CommitModel, v: ValidatorVerifier, e: E, round: int)
    requires
        m.dag.wf(),
    ensures
        drive(m, v, e, round).0.lowest_unordered_round >= m.lowest_unordered_round,
{
    lemma_drive(m, v, e, round);
}

/// The cursor keeps its parity: once it sits one past an anchor round (an
/// odd round), it still does after the driver runs.
pub proof fn lemma_cursor_parity<E: AnchorElection>(m: CommitModel, v: ValidatorVerifier, e: E, round: int)
    requires
        m.dag.wf(),
        m.lowest_unordered_round % 2 == 1,
    ensures
        drive(m, v, e, round).0.lowest_unordered_round % 2 == 1,
{
    lemma_drive(m, v, e, round);
}

/// Every parent of an ordered node is ordered.
pub proof fn lemma_ordered_parents_ordered(g: DagModel, c: Pos, p: Pos)
    requires
        g.wf(),
        g.ordered.contains(c),
        g.is_parent(c, p),
    ensures
        g.ordered.contains(p),
{
}

/// No node is emitted twice by one run of the driver: not twice in one
/// commit, nor in two commits.
pub proof fn lemma_run_emits_once<E: AnchorElection>(m: CommitModel, v: ValidatorVerifier, e: E, round: int)
    requires
        m.dag.wf(),
    ensures
        ({
            let bs = drive(m, v, e, round).1;
            &&& forall|i: int| 0 <= i < bs.len() ==> (#[trigger] bs[i]).ordered_nodes.no_duplicates()
            &&& forall|i: int, k: int|
                0 <= i < k < bs.len() ==> disjoint(#[trigger] bs[i].ordered_nodes, #[trigger] bs[k].ordered_nodes)
        }),
{
    lemma_drive(m, v, e, round);
}

/// No node is emitted by two runs of the driver: a later run, on a DAG
/// that keeps every node the first run ordered (nodes may have been added
/// between the runs), emits none of the nodes the first run emitted.
pub proof fn lemma_runs_emit_once<E: AnchorElection>(
    m: CommitModel,
    round: int,
    later: CommitModel,
    later_round: int,
    v: ValidatorVerifier,
    e: E,
)
    requires
        m.dag.wf(),
        later.dag.wf(),
        drive(m, v, e, round).0.dag.ordered.subset_of(later.dag.ordered),
    ensures
        ({
            let bs = drive(m, v, e, round).1;
            let cs = drive(later, v, e, later_round).1;
            forall|i: int, k: int|
                0 <= i < bs.len() && 0 <= k < cs.len() ==> disjoint(#[trigger] bs[i].ordered_nodes, #[trigger] cs[k].ordered_nodes)
        }),
{
    lemma_drive(m, v, e, round);
    lemma_drive(later, v, e, later_round);
    let m2 = drive(m, v, e, round).0;
    let bs = drive(m, v, e, round).1;
    let cs = drive(later, v, e, later_round).1;
    assert forall|i: int, k: int| 0 <= i < bs.len() && 0 <= k < cs.len() implies disjoint(
        #[trigger] bs[i].ordered_nodes,
        #[trigger] cs[k].ordered_nodes,
    ) by {
        assert forall|p: int, q: int|
            0 <= p < bs[i].ordered_nodes.len() && 0 <= q < cs[k].ordered_nodes.len() implies bs[i].ordered_nodes[p]
                != cs[k].ordered_nodes[q] by {
            let x = bs[i].ordered_nodes[p];
            let y = cs[k].ordered_nodes[q];
            assert(m2.dag.ordered.contains(x.pos()));
            assert(!later.dag.ordered.contains(y.pos()));
        }
    }
}

/// Running the driver again for the same node changes nothing and emits
/// nothing.
pub proof fn lemma_replay_is_noop<E: AnchorElection>(m: CommitModel, v: ValidatorVerifier, e: E, round: int)
    requires
        m.dag.wf(),
    ensures
        ({
            let m1 = drive(m, v, e, round).0;
            drive(m1, v, e, round) == (m1, Seq::<OrderedBlocksView>::empty())
        }),
{
    lemma_drive(m, v, e, round);
}

/// Finalizing the same anchor a second time would order nothing: every node
/// it reaches is ordered by the first time.
pub proof fn lemma_finalize_twice_orders_nothing<E: AnchorElection>(m: CommitModel, e: E, a: NodeMetadata)
    requires
        m.dag.wf(),
    ensures
        finalize(m, e, a).0.dag.batch(a.pos()) == Seq::<NodeMetadata>::empty(),
{
    let g1 = finalize(m, e, a).0.dag;
    lemma_order_from_wf(m.dag, a.pos());
    lemma_batch(g1, a.pos());
    if g1.batch(a.pos()).len() > 0 {
        let x = g1.batch(a.pos())[0];
        lemma_reachable_same_nodes(m.dag, g1, a.pos(), x.pos());
        assert(g1.ordered.contains(x.pos()));
    }
    assert(g1.batch(a.pos()) =~= Seq::<NodeMetadata>::empty());
}

/// A node of the round the cursor sits on unlocks nothing: search scans no
/// round and the driver returns at once.
pub proof fn lemma_node_at_cursor<E: AnchorElection>(m: CommitModel, v: ValidatorVerifier, e: E, round: int)
    requires
        m.lowest_unordered_round == round,
    ensures
        drive(m, v, e, round) == (m, Seq::<OrderedBlocksView>::empty()),
{
}

/// Two DAGs hold the same node, with the same ordered flag, at `p`.
pub open spec fn same_at(g1: DagModel, g2: DagModel, p: Pos) -> bool {
    &&& g1.has(p) == g2.has(p)
    &&& g1.has(p) ==> g1.nodes[p] == g2.nodes[p]
    &&& g1.ordered.contains(p) == g2.ordered.contains(p)
}

/// Two DAGs of the same epoch with the same contents on every round up to
/// `bound`.
pub open spec fn agree_upto(g1: DagModel, g2: DagModel, bound: int) -> bool {
    &&& g1.start_round == g2.start_round
    &&& g1.num_validators == g2.num_validators
    &&& forall|p: Pos| p.0 <= bound ==> #[trigger] same_at(g1, g2, p)
}

proof fn lemma_reachable_agree(g1: DagModel, g2: DagModel, bound: int, from: Pos, to: Pos)
    requires
        agree_upto(g1, g2, bound),
        from.0 <= bound,
    ensures
        g1.reachable(from, to) == g2.reachable(from, to),
    decreases from.0 - to.0,
{
    assert(same_at(g1, g2, from));
    if to.0 < from.0 {
        assert(same_at(g1, g2, to));
        if g1.reachable(from, to) {
            let c = choose|c: Pos| #[trigger] g1.is_parent(c, to) && c.0 == to.0 + 1 && g1.reachable(from, c);
            lemma_reachable_agree(g1, g2, bound, from, c);
            assert(same_at(g1, g2, c));
            assert(g2.is_parent(c, to));
        }
        if g2.reachable(from, to) {
            let c = choose|c: Pos| #[trigger] g2.is_parent(c, to) && c.0 == to.0 + 1 && g2.reachable(from, c);
            lemma_reachable_agree(g1, g2, bound, from, c);
            assert(same_at(g1, g2, c));
            assert(g1.is_parent(c, to));
        }
    }
}

proof fn lemma_vote_stake_agree(g1: DagModel, g2: DagModel, bound: int, m: NodeMetadata, powers: Seq<u64>, k: int)
    requires
        agree_upto(g1, g2, bound),
        m.round + 1 <= bound,
    ensures
        g1.vote_stake(m, powers, k) == g2.vote_stake(m, powers, k),
    decreases k,
{
    if k > 0 {
        lemma_vote_stake_agree(g1, g2, bound, m, powers, k - 1);
        assert(same_at(g1, g2, (m.round + 1, k - 1)));
    }
}

proof fn lemma_search_agree<E: AnchorElection>(
    g1: DagModel,
    g2: DagModel,
    bound: int,
    v: ValidatorVerifier,
    e: E,
    r: int,
    target: int,
)
    requires
        g1.wf(),
        agree_upto(g1, g2, bound),
        target <= bound,
    ensures
        first_committable(g1, v, e, r, target) == first_committable(g2, v, e, r, target),
    decreases target - r + 2,
{
    if r < target {
        let p = anchor_pos(e, r);
        assert(same_at(g1, g2, p));
        if g1.has(p) {
            assert(g1.nodes[p].metadata.pos() == p);
            lemma_vote_stake_agree(g1, g2, bound, g1.nodes[p].metadata, v.powers(), g1.num_validators);
        }
        assert(committable(g1, v, e, r) == committable(g2, v, e, r));
        lemma_search_agree(g1, g2, bound, v, e, r + 2, target);
    }
}

proof fn lemma_earliest_agree<E: AnchorElection>(
    g1: DagModel,
    g2: DagModel,
    bound: int,
    e: E,
    x: NodeMetadata,
    floor: int,
    r: int,
)
    requires
        agree_upto(g1, g2, bound),
        x.round <= bound,
    ensures
        earliest_from(g1, e, x, floor, r) == earliest_from(g2, e, x, floor, r),
    decreases x.round - r,
{
    if r < x.round {
        lemma_reachable_agree(g1, g2, bound, x.pos(), anchor_pos(e, r));
        assert(same_at(g1, g2, anchor_pos(e, r)));
        if anchor_match(g1, e, x, floor, r) {
            lemma_reachable_has(g1, x.pos(), anchor_pos(e, r));
        }
        lemma_earliest_agree(g1, g2, bound, e, x, floor, r + 1);
    }
}

proof fn lemma_row_batch_agree(g1: DagModel, g2: DagModel, bound: int, from: Pos, r: int, k: int)
    requires
        agree_upto(g1, g2, bound),
        from.0 <= bound,
        r <= bound,
    ensures
        g1.row_batch(from, r, k) == g2.row_batch(from, r, k),
    decreases k,
{
    if k > 0 {
        lemma_row_batch_agree(g1, g2, bound, from, r, k - 1);
        lemma_reachable_agree(g1, g2, bound, from, (r, k - 1));
        assert(same_at(g1, g2, (r, k - 1)));
        if g1.newly_ordered(from, (r, k - 1)) {
            lemma_reachable_has(g1, from, (r, k - 1));
        }
    }
}

proof fn lemma_batch_upto_agree(g1: DagModel, g2: DagModel, bound: int, from: Pos, lo: int, hi: int)
    requires
        agree_upto(g1, g2, bound),
        from.0 <= bound,
        hi <= bound,
    ensures
        g1.batch_upto(from, lo, hi) == g2.batch_upto(from, lo, hi),
    decreases hi - lo + 1,
{
    if hi >= lo {
        lemma_batch_upto_agree(g1, g2, bound, from, lo, hi - 1);
        lemma_row_batch_agree(g1, g2, bound, from, hi, g1.num_validators);
    }
}

proof fn lemma_order_from_agree(g1: DagModel, g2: DagModel, bound: int, from: Pos)
    requires
        agree_upto(g1, g2, bound),
        from.0 <= bound,
    ensures
        agree_upto(g1.order_from(from), g2.order_from(from), bound),
{
    let h1 = g1.order_from(from);
    let h2 = g2.order_from(from);
    assert forall|p: Pos| p.0 <= bound implies #[trigger] same_at(h1, h2, p) by {
        assert(same_at(g1, g2, p));
        lemma_reachable_agree(g1, g2, bound, from, p);
    }
}

/// Determinism across validators: two states with the same cursor whose
/// DAGs have the same contents on every round up to `bound` emit the same
/// commits for a node of a round up to `bound`, and end with the same
/// cursor and DAG contents up to `bound`.
pub proof fn lemma_deterministic<E: AnchorElection>(
    m1: CommitModel,
    m2: CommitModel,
    bound: int,
    v: ValidatorVerifier,
    e: E,
    round: int,
)
    requires
        m1.dag.wf(),
        m2.dag.wf(),
        agree_upto(m1.dag, m2.dag, bound),
        m1.lowest_unordered_round == m2.lowest_unordered_round,
        m1.ordered_block_id == m2.ordered_block_id,
        round <= bound,
    ensures
        drive(m1, v, e, round).1 == drive(m2, v, e, round).1,
        drive(m1, v, e, round).0.lowest_unordered_round == drive(m2, v, e, round).0.lowest_unordered_round,
        drive(m1, v, e, round).0.ordered_block_id == drive(m2, v, e, round).0.ordered_block_id,
        agree_upto(drive(m1, v, e, round).0.dag, drive(m2, v, e, round).0.dag, bound),
    decreases round + 1 - m1.lowest_unordered_round,
{
    if m1.lowest_unordered_round <= round {
        let r0 = first_anchor_round(m1.lowest_unordered_round);
        lemma_search_agree(m1.dag, m2.dag, bound, v, e, r0, round);
        if let Some(a0) = search(m1, v, e, round) {
            lemma_first_committable(m1.dag, v, e, r0, round);
            lemma_earliest_agree(m1.dag, m2.dag, bound, e, a0, m1.lowest_unordered_round, m1.lowest_unordered_round);
            let a = backfill(m1, e, a0);
            assert(a == backfill(m2, e, a0));
            lemma_commit_anchor(m1, v, e, round);
            lemma_batch_upto_agree(m1.dag, m2.dag, bound, a.pos(), m1.dag.start_round, a.round as int);
            lemma_order_from_agree(m1.dag, m2.dag, bound, a.pos());
            lemma_order_from_wf(m1.dag, a.pos());
            lemma_order_from_wf(m2.dag, a.pos());
            let n1 = finalize(m1, e, a).0;
            let n2 = finalize(m2, e, a).0;
            assert(finalize(m1, e, a).1 == finalize(m2, e, a).1);
            lemma_deterministic(n1, n2, bound, v, e, round);
        }
    }
}

} // verus!
