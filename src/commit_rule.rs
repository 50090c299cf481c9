//! The commit rule: anchor search, anchor backfill, the order finalizer and
//! the driver that runs them on each new certified node.
use vstd::prelude::*;
use crate::dag::{lemma_order_from_wf, lemma_reachable_has, lemma_reachable_trans, Dag, DagError, DagModel, Pos};
use crate::election::AnchorElection;
use crate::epoch::{EpochState, ValidatorVerifier};
use crate::safety::lemma_drive;
use crate::types::{Author, CertifiedNode, Digest, NodeMetadata, Round};

verus! {

/// The position of the anchor elected for round `r`.
pub open spec fn anchor_pos<E: AnchorElection>(e: E, r: int) -> Pos {
    (r, e.anchor_of(r))
}

/// Rounds of the anchor parity: the even ones.
pub open spec fn is_anchor_round(r: int) -> bool {
    r % 2 == 0
}

/// The first anchor round at or above `r`.
pub open spec fn first_anchor_round(r: int) -> int {
    if is_anchor_round(r) {
        r
    } else {
        r + 1
    }
}

/// The anchor of round `r` is in the DAG and its votes carry a quorum.
pub open spec fn committable<E: AnchorElection>(g: DagModel, v: ValidatorVerifier, e: E, r: int) -> bool {
    g.has(anchor_pos(e, r)) && g.has_quorum(g.nodes[anchor_pos(e, r)].metadata, v)
}

/// The first committable anchor of rounds `r, r + 2, ...` below `target`.
pub open spec fn first_committable<E: AnchorElection>(
    g: DagModel,
    v: ValidatorVerifier,
    e: E,
    r: int,
    target: int,
) -> Option<NodeMetadata>
    decreases target - r + 2,
{
    if r >= target {
        None
    } else if committable(g, v, e, r) {
        Some(g.nodes[anchor_pos(e, r)].metadata)
    } else {
        first_committable(g, v, e, r + 2, target)
    }
}

/// Round `r` holds an anchor reachable from `x`, at or above `floor`, with
/// the parity of `x`'s round.
pub open spec fn anchor_match<E: AnchorElection>(g: DagModel, e: E, x: NodeMetadata, floor: int, r: int) -> bool {
    &&& floor <= r
    &&& r % 2 == x.round % 2
    &&& g.reachable(x.pos(), anchor_pos(e, r))
}

/// The anchor of the lowest round in `r .. x.round` that matches, or `x`
/// where none does.
pub open spec fn earliest_from<E: AnchorElection>(g: DagModel, e: E, x: NodeMetadata, floor: int, r: int) -> NodeMetadata
    decreases x.round - r,
{
    if r >= x.round {
        x
    } else if anchor_match(g, e, x, floor, r) {
        g.nodes[anchor_pos(e, r)].metadata
    } else {
        earliest_from(g, e, x, floor, r + 1)
    }
}

/// The earliest anchor reachable from `x` at or above `floor`; `x` itself
/// where there is none below it.
pub open spec fn earliest_anchor<E: AnchorElection>(g: DagModel, e: E, x: NodeMetadata, floor: int) -> NodeMetadata {
    earliest_from(g, e, x, floor, floor)
}

/// Rounds `r .. hi` without a match leave the earliest anchor unchanged.
pub proof fn lemma_earliest_skip<E: AnchorElection>(g: DagModel, e: E, x: NodeMetadata, floor: int, r: int, hi: int)
    requires
        r <= hi <= x.round,
        forall|q: int| r <= q < hi ==> !#[trigger] anchor_match(g, e, x, floor, q),
    ensures
        earliest_from(g, e, x, floor, r) == earliest_from(g, e, x, floor, hi),
    decreases hi - r,
{
    if r < hi {
        assert(!anchor_match(g, e, x, floor, r));
        lemma_earliest_skip(g, e, x, floor, r + 1, hi);
    }
}

/// The earliest anchor from round `r` on is `x` with no match in
/// `r .. x.round`, or the anchor of a matching round `rs` with no match in
/// `r .. rs`.
pub proof fn lemma_earliest_shape<E: AnchorElection>(g: DagModel, e: E, x: NodeMetadata, floor: int, r: int) -> (rs: int)
    ensures
        ({
            let m = earliest_from(g, e, x, floor, r);
            ||| m == x && forall|q: int| r <= q < x.round ==> !#[trigger] anchor_match(g, e, x, floor, q)
            ||| {
                &&& r <= rs < x.round
                &&& anchor_match(g, e, x, floor, rs)
                &&& m == g.nodes[anchor_pos(e, rs)].metadata
                &&& forall|q: int| r <= q < rs ==> !#[trigger] anchor_match(g, e, x, floor, q)
            }
        }),
    decreases x.round - r,
{
    if r >= x.round {
        r
    } else if anchor_match(g, e, x, floor, r) {
        r
    } else {
        let rs = lemma_earliest_shape(g, e, x, floor, r + 1);
        if earliest_from(g, e, x, floor, r + 1) == x && forall|q: int|
            r + 1 <= q < x.round ==> !#[trigger] anchor_match(g, e, x, floor, q) {
            assert forall|q: int| r <= q < x.round implies !#[trigger] anchor_match(g, e, x, floor, q) by {
                if q > r {
                    assert(r + 1 <= q);
                }
            }
        } else {
            assert forall|q: int| r <= q < rs implies !#[trigger] anchor_match(g, e, x, floor, q) by {
                if q > r {
                    assert(r + 1 <= q);
                }
            }
        }
        rs
    }
}

/// The earliest anchor of the earliest anchor is itself: walking back once
/// more finds nothing new.
pub proof fn lemma_earliest_idempotent<E: AnchorElection>(g: DagModel, e: E, x: NodeMetadata, floor: int)
    requires
        g.wf(),
        g.has(x.pos()),
        g.nodes[x.pos()].metadata == x,
    ensures
        ({
            let m = earliest_anchor(g, e, x, floor);
            &&& earliest_anchor(g, e, m, floor) == m
            &&& g.has(m.pos())
            &&& g.nodes[m.pos()].metadata == m
            &&& m.round % 2 == x.round % 2
            &&& m.round <= x.round
            &&& m != x ==> floor <= m.round < x.round
        }),
{
    let m = earliest_anchor(g, e, x, floor);
    let rs = lemma_earliest_shape(g, e, x, floor, floor);
    if m != x {
        let p = anchor_pos(e, rs);
        lemma_reachable_has(g, x.pos(), p);
        assert(m.pos() == p);
        assert forall|q: int| floor <= q < m.round implies !#[trigger] anchor_match(g, e, m, floor, q) by {
            if anchor_match(g, e, m, floor, q) {
                lemma_reachable_trans(g, x.pos(), m.pos(), anchor_pos(e, q));
                assert(anchor_match(g, e, x, floor, q));
            }
        }
        lemma_earliest_skip(g, e, m, floor, floor, m.round as int);
    }
}

/// Two rounds have the same parity exactly when bit 0 of their XOR is clear.
proof fn lemma_xor_parity(a: u64, b: u64)
    ensures
        ((a ^ b) & 1 == 0) == (a % 2 == b % 2),
{
    assert(((a ^ b) & 1 == 0) == (a % 2 == b % 2)) by (bit_vector);
}

/// The commit cursor and the DAG, as plain values.
pub ghost struct CommitModel {
    pub dag: DagModel,
    pub ordered_block_id: int,
    pub lowest_unordered_round: int,
}

/// What backfill returns for the direct anchor `a0`: the earliest anchor
/// reachable from it at or above the cursor.
pub open spec fn backfill<E: AnchorElection>(m: CommitModel, e: E, a0: NodeMetadata) -> NodeMetadata {
    earliest_anchor(m.dag, e, a0, m.lowest_unordered_round)
}

/// What anchor search returns: the first committable anchor on the anchor
/// rounds from the cursor up to, not including, `target`.
pub open spec fn search<E: AnchorElection>(m: CommitModel, v: ValidatorVerifier, e: E, target: int) -> Option<
    NodeMetadata,
> {
    first_committable(m.dag, v, e, first_anchor_round(m.lowest_unordered_round), target)
}

/// The authors elected on the anchor rounds `r, r + 2, ...` below `hi`.
pub open spec fn failed_anchors<E: AnchorElection>(e: E, r: int, hi: int) -> Seq<Author>
    decreases hi - r + 2,
{
    if r >= hi {
        Seq::empty()
    } else {
        seq![e.anchor_of(r) as Author] + failed_anchors(e, r + 2, hi)
    }
}

/// One commit as plain values.
pub ghost struct OrderedBlocksView {
    pub anchor: NodeMetadata,
    pub ordered_nodes: Seq<NodeMetadata>,
    pub failed_anchors: Seq<Author>,
}

/// One commit: the committed anchor, the nodes it orders (parents before
/// children) and the authors elected on the anchor rounds it skipped.
#[derive(Debug)]
pub struct OrderedBlocks {
    pub anchor: NodeMetadata,
    pub ordered_nodes: Vec<NodeMetadata>,
    pub failed_anchors: Vec<Author>,
}

impl View for OrderedBlocks {
    type V = OrderedBlocksView;

    open spec fn view(&self) -> OrderedBlocksView {
        OrderedBlocksView {
            anchor: self.anchor,
            ordered_nodes: self.ordered_nodes@,
            failed_anchors: self.failed_anchors@,
        }
    }
}

/// The state after committing anchor `a`, and the commit emitted: the
/// anchor rounds from the cursor up to `a` are failed anchors, the cursor
/// moves one past `a`, and every node that `a` reaches and that was not yet
/// ordered is ordered.
pub open spec fn finalize<E: AnchorElection>(m: CommitModel, e: E, a: NodeMetadata) -> (CommitModel, OrderedBlocksView) {
    (
        CommitModel {
            dag: m.dag.order_from(a.pos()),
            ordered_block_id: a.digest as int,
            lowest_unordered_round: a.round + 1,
        },
        OrderedBlocksView {
            anchor: a,
            ordered_nodes: m.dag.batch(a.pos()),
            failed_anchors: failed_anchors(e, first_anchor_round(m.lowest_unordered_round), a.round as int),
        },
    )
}

/// The state and the commits after a new node of round `round`: while the
/// cursor is at or below `round` and anchor search finds a direct anchor,
/// the anchor that backfill returns for it is finalized.
pub open spec fn drive<E: AnchorElection>(m: CommitModel, v: ValidatorVerifier, e: E, round: int) -> (CommitModel, Seq<
    OrderedBlocksView,
>)
    decreases round + 1 - m.lowest_unordered_round,
{
    if m.lowest_unordered_round > round {
        (m, Seq::empty())
    } else {
        match search(m, v, e, round) {
            None => (m, Seq::empty()),
            Some(a0) => {
                let (m1, b) = finalize(m, e, backfill(m, e, a0));
                if m.lowest_unordered_round < m1.lowest_unordered_round <= round + 1 {
                    let (m2, bs) = drive(m1, v, e, round);
                    (m2, seq![b] + bs)
                } else {
                    (m1, seq![b])
                }
            },
        }
    }
}

/// An anchor that search finds is in the DAG, on an anchor round from `r`
/// on, below `target`.
pub proof fn lemma_first_committable<E: AnchorElection>(
    g: DagModel,
    v: ValidatorVerifier,
    e: E,
    r: int,
    target: int,
)
    requires
        g.wf(),
        first_committable(g, v, e, r, target) is Some,
    ensures
        ({
            let a = first_committable(g, v, e, r, target)->0;
            &&& g.has(a.pos())
            &&& g.nodes[a.pos()].metadata == a
            &&& r <= a.round < target
            &&& a.round % 2 == r % 2
        }),
    decreases target - r + 2,
{
    if r < target && !committable(g, v, e, r) {
        lemma_first_committable(g, v, e, r + 2, target);
    }
}

/// The last committed block: its round and its id.
#[derive(Clone, Copy, Debug, PartialEq, Eq, Structural)]
pub struct BlockInfo {
    pub round: Round,
    pub id: Digest,
}

/// The ledger state the commit rule starts from.
#[derive(Clone, Copy, Debug, PartialEq, Eq, Structural)]
pub struct LedgerInfo {
    pub commit_info: BlockInfo,
}

impl LedgerInfo {
    pub fn new(round: Round, id: Digest) -> (l: Self)
        ensures
            l.commit_info == (BlockInfo { round, id }),
    {
        LedgerInfo { commit_info: BlockInfo { round, id } }
    }

    pub fn commit_info(&self) -> (b: &BlockInfo)
        ensures
            *b == self.commit_info,
    {
        &self.commit_info
    }
}

/// The commit rule of an epoch over its DAG.
pub struct CommitRule<E: AnchorElection> {
    epoch_state: EpochState,
    ordered_block_id: Digest,
    lowest_unordered_round: Round,
    dag: Dag,
    anchor_election: E,
}

impl<E: AnchorElection> View for CommitRule<E> {
    type V = CommitModel;

    closed spec fn view(&self) -> CommitModel {
        CommitModel {
            dag: self.dag@,
            ordered_block_id: self.ordered_block_id as int,
            lowest_unordered_round: self.lowest_unordered_round as int,
        }
    }
}

impl<E: AnchorElection> CommitRule<E> {
    /// The validator set of the epoch.
    pub closed spec fn validators(&self) -> ValidatorVerifier {
        self.epoch_state.verifier
    }

    /// The anchor election of the epoch.
    pub closed spec fn election(&self) -> E {
        self.anchor_election
    }

    pub closed spec fn wf(&self) -> bool {
        self.dag.wf() && self.epoch_state.verifier.inv()
    }

    /// A commit rule that starts one round past the last committed block.
    pub fn new(epoch_state: EpochState, latest_ledger_info: LedgerInfo, dag: Dag, anchor_election: E) -> (c: Self)
        requires
            dag.wf(),
            epoch_state.verifier.inv(),
            latest_ledger_info.commit_info.round < u64::MAX,
        ensures
            c.wf(),
            c@.dag == dag@,
            c@.ordered_block_id == latest_ledger_info.commit_info.id,
            c@.lowest_unordered_round == latest_ledger_info.commit_info.round + 1,
            c.validators() == epoch_state.verifier,
            c.election() == anchor_election,
    {
        let info = latest_ledger_info.commit_info();
        CommitRule {
            ordered_block_id: info.id,
            lowest_unordered_round: info.round + 1,
            epoch_state,
            dag,
            anchor_election,
        }
    }

    pub fn lowest_unordered_round(&self) -> (r: Round)
        ensures
            r == self@.lowest_unordered_round,
    {
        self.lowest_unordered_round
    }

    pub fn ordered_block_id(&self) -> (r: Digest)
        ensures
            r == self@.ordered_block_id,
    {
        self.ordered_block_id
    }

    pub fn dag(&self) -> (d: &Dag)
        ensures
            d@ == self@.dag,
            self.wf() ==> d.wf(),
    {
        &self.dag
    }

    /// Adds a certified node to the DAG, as `Dag::add_node` does; the cursor
    /// is unchanged.
    pub fn add_node(&mut self, node: CertifiedNode) -> (r: Result<(), DagError>)
        requires
            old(self).wf(),
        ensures
            final(self).wf(),
            final(self).validators() == old(self).validators(),
            final(self).election() == old(self).election(),
            final(self)@.lowest_unordered_round == old(self)@.lowest_unordered_round,
            final(self)@.ordered_block_id == old(self)@.ordered_block_id,
            ({
                let g = old(self)@.dag;
                let m = node@.metadata;
                if m.author >= g.num_validators {
                    r == Err::<(), DagError>(DagError::UnknownAuthor)
                } else if !g.round_open(m.round as int) {
                    r == Err::<(), DagError>(DagError::RoundOutOfRange)
                } else if g.has(m.pos()) {
                    r == Err::<(), DagError>(DagError::AlreadyExists)
                } else if !g.parents_present(node@) {
                    r == Err::<(), DagError>(DagError::MissingParent)
                } else {
                    r is Ok && final(self)@.dag == g.add(node@)
                }
            }),
            r is Err ==> final(self)@ == old(self)@,
    {
        self.dag.add_node(node)
    }

    /// The first anchor, on the anchor rounds from the cursor up to but not
    /// including `target_round`, whose node is in the DAG and whose votes
    /// carry a quorum.
    pub fn find_first_anchor_with_enough_votes(&self, target_round: Round) -> (r: Option<NodeMetadata>)
        requires
            self.wf(),
        ensures
            r == search(self@, self.validators(), self.election(), target_round as int),
    {
        let ghost g = self.dag@;
        let ghost v = self.validators();
        let ghost e = self.election();
        let mut current_round = self.lowest_unordered_round;
        if current_round % 2 == 1 {
            if current_round >= target_round {
                return None;
            }
            current_round = current_round + 1;
        }
        while current_round < target_round
            invariant
                self.wf(),
                g == self.dag@,
                v == self.validators(),
                e == self.election(),
                search(self@, v, e, target_round as int) == first_committable(
                    g,
                    v,
                    e,
                    current_round as int,
                    target_round as int,
                ),
            decreases target_round - current_round,
        {
            let anchor_author = self.anchor_election.get_anchor(current_round);
            if let Some(anchor_node) = self.dag.get_node_by_round_author(current_round, anchor_author) {
                if self.dag.check_votes_for_node(&anchor_node.metadata, &self.epoch_state.verifier) {
                    return Some(anchor_node.metadata);
                }
            }
            if target_round - current_round <= 2 {
                assert(first_committable(g, v, e, current_round + 2, target_round as int) == None::<NodeMetadata>);
                return None;
            }
            current_round = current_round + 2;
        }
        None
    }

    /// The anchor of the lowest round at or above the cursor and below
    /// `cur` that `cur` reaches, on rounds whose parity matches
    /// `parity_round`; `None` where there is none.
    fn deepest_anchor_below(&self, cur: &NodeMetadata, parity_round: Round) -> (r: Option<NodeMetadata>)
        requires
            self.wf(),
            self@.dag.has(cur.pos()),
            self@.dag.nodes[cur.pos()].metadata == *cur,
            cur.round % 2 == parity_round % 2,
            self@.lowest_unordered_round <= cur.round,
        ensures
            ({
                let m = earliest_anchor(self@.dag, self.election(), *cur, self@.lowest_unordered_round);
                match r {
                    None => m == *cur,
                    Some(n) => n == m && n.round < cur.round,
                }
            }),
    {
        let ghost g = self.dag@;
        let ghost e = self.election();
        let ghost x = *cur;
        let floor = self.lowest_unordered_round;
        let start = self.dag.start_round();
        let lo = if floor >= start { floor } else { start };
        proof {
            assert forall|q: int| floor <= q < lo implies !#[trigger] anchor_match(g, e, x, floor as int, q) by {
                if anchor_match(g, e, x, floor as int, q) {
                    lemma_reachable_has(g, x.pos(), anchor_pos(e, q));
                }
            }
        }
        if lo >= cur.round {
            proof {
                lemma_earliest_skip(g, e, x, floor as int, floor as int, x.round as int);
            }
            return None;
        }
        proof {
            lemma_earliest_skip(g, e, x, floor as int, floor as int, lo as int);
        }
        let marks = self.dag.reachable_marks(cur, floor);
        let n = self.dag.num_validators();
        let mut r = lo;
        while r < cur.round
            invariant
                self.wf(),
                g == self.dag@,
                e == self.election(),
                x == *cur,
                g.has(x.pos()),
                n == g.num_validators,
                lo <= r <= cur.round,
                lo == (if floor >= g.start_round { floor as int } else { g.start_round }),
                floor == self@.lowest_unordered_round,
                cur.round % 2 == parity_round % 2,
                marks@.len() == cur.round - lo + 1,
                forall|k: int| 0 <= k < marks@.len() ==> (#[trigger] marks@[k])@.len() == n,
                forall|k: int, y: int|
                    0 <= k < marks@.len() && 0 <= y < n ==> (#[trigger] marks@[k]@[y]
                        == g.reachable(x.pos(), (cur.round - k, y))),
                earliest_anchor(g, e, x, floor as int) == earliest_from(g, e, x, floor as int, r as int),
            decreases cur.round - r,
        {
            proof {
                lemma_xor_parity(r, parity_round);
            }
            if (r ^ parity_round) & 1 == 0 {
                let a = self.anchor_election.get_anchor(r);
                if a < n as u64 {
                    let k = (cur.round - r) as usize;
                    if marks[k][a as usize] {
                        assert(anchor_match(g, e, x, floor as int, r as int));
                        match self.dag.get_node_by_round_author(r, a) {
                            Some(node) => {
                                return Some(node.metadata);
                            },
                            None => {
                                proof {
                                    lemma_reachable_has(g, x.pos(), anchor_pos(e, r as int));
                                }
                            },
                        }
                    }
                } else {
                    proof {
                        if g.reachable(x.pos(), anchor_pos(e, r as int)) {
                            lemma_reachable_has(g, x.pos(), anchor_pos(e, r as int));
                        }
                    }
                }
            }
            r = r + 1;
        }
        None
    }

    /// Commits `anchor`: records the failed anchors, moves the cursor one
    /// past it, orders every node it reaches that was not yet ordered, and
    /// returns them as one commit.
    pub fn finalize_order(&mut self, anchor: NodeMetadata) -> (b: OrderedBlocks)
        requires
            old(self).wf(),
            old(self)@.dag.has(anchor.pos()),
            old(self)@.lowest_unordered_round <= anchor.round < u64::MAX,
        ensures
            final(self).wf(),
            (final(self)@, b@) == finalize(old(self)@, old(self).election(), anchor),
            final(self).validators() == old(self).validators(),
            final(self).election() == old(self).election(),
    {
        let ghost e = self.election();
        let ghost lowest = self.lowest_unordered_round as int;
        let mut failed: Vec<Author> = Vec::new();
        let mut r = self.lowest_unordered_round;
        if r % 2 == 1 {
            r = r + 1;
        }
        while r < anchor.round
            invariant
                e == self.election(),
                anchor.round < u64::MAX,
                failed_anchors(e, first_anchor_round(lowest), anchor.round as int) == failed@ + failed_anchors(
                    e,
                    r as int,
                    anchor.round as int,
                ),
            decreases anchor.round + 2 - r,
        {
            let a = self.anchor_election.get_anchor(r);
            failed.push(a);
            proof {
                assert(failed_anchors(e, r as int, anchor.round as int) == seq![a] + failed_anchors(
                    e,
                    r + 2,
                    anchor.round as int,
                ));
            }
            r = r + 2;
        }
        proof {
            assert(failed@ =~= failed@ + failed_anchors(e, r as int, anchor.round as int));
        }
        self.lowest_unordered_round = anchor.round + 1;
        self.ordered_block_id = anchor.digest;
        let ordered_nodes = self.dag.order_from(&anchor);
        proof {
            lemma_order_from_wf(old(self)@.dag, anchor.pos());
        }
        OrderedBlocks { anchor, ordered_nodes, failed_anchors: failed }
    }

    /// Runs the commit rule after a node of round `node.round` was added:
    /// while the cursor is at or below that round and an anchor with enough
    /// votes stands on an anchor round from the cursor up to that round, the
    /// earliest anchor it reaches is committed. Returns the commits in order.
    pub fn new_node(&mut self, node: &CertifiedNode) -> (out: Vec<OrderedBlocks>)
        requires
            old(self).wf(),
        ensures
            final(self).wf(),
            (final(self)@, out@.map_values(|b: OrderedBlocks| b@)) == drive(
                old(self)@,
                old(self).validators(),
                old(self).election(),
                node.metadata.round as int,
            ),
            final(self).validators() == old(self).validators(),
            final(self).election() == old(self).election(),
            final(self)@.dag.wf(),
            final(self)@.lowest_unordered_round >= old(self)@.lowest_unordered_round,
    {
        let ghost v = self.validators();
        let ghost e = self.election();
        let ghost m0 = self@;
        proof {
            lemma_drive(m0, v, e, node.metadata.round as int);
        }
        let round = node.round();
        let mut out: Vec<OrderedBlocks> = Vec::new();
        while self.lowest_unordered_round <= round
            invariant
                self.wf(),
                v == self.validators(),
                e == self.election(),
                v == old(self).validators(),
                e == old(self).election(),
                m0 == old(self)@,
                m0.dag.wf(),
                round == node.metadata.round,
                drive(m0, v, e, round as int) == ({
                    let (m2, bs) = drive(self@, v, e, round as int);
                    (m2, out@.map_values(|b: OrderedBlocks| b@) + bs)
                }),
            decreases round + 1 - self.lowest_unordered_round,
        {
            let ghost m = self@;
            if let Some(direct_anchor) = self.find_first_anchor_with_enough_votes(round) {
                proof {
                    lemma_first_committable(m.dag, v, e, first_anchor_round(m.lowest_unordered_round), round as int);
                }
                let commit_anchor = self.find_first_anchor_to_commit(direct_anchor);
                let b = self.finalize_order(commit_anchor);
                let ghost bv = b@;
                let ghost out0 = out@;
                out.push(b);
                proof {
                    assert(out@.map_values(|b: OrderedBlocks| b@) =~= out0.map_values(|b: OrderedBlocks| b@) + seq![bv]);
                    let (m2, bs) = drive(self@, v, e, round as int);
                    assert(drive(m, v, e, round as int) == (m2, seq![bv] + bs));
                    assert(out0.map_values(|b: OrderedBlocks| b@) + (seq![bv] + bs) =~= out@.map_values(|b: OrderedBlocks| b@) + bs);
                }
            } else {
                proof {
                    assert(drive(self@, v, e, round as int) == (self@, Seq::<OrderedBlocksView>::empty()));
                    lemma_drive(m0, v, e, round as int);
                    assert(out@.map_values(|b: OrderedBlocks| b@) + Seq::<OrderedBlocksView>::empty() =~= out@.map_values(|b: OrderedBlocks| b@));
                }
                return out;
            }
        }
        proof {
            assert(out@.map_values(|b: OrderedBlocks| b@) + Seq::<OrderedBlocksView>::empty() =~= out@.map_values(|b: OrderedBlocks| b@));
            lemma_drive(m0, v, e, round as int);
        }
        out
    }

    /// From the direct anchor `direct_anchor`, walks back to the earliest
    /// anchor it reaches at or above the cursor: while the current anchor
    /// reaches an anchor of an earlier round of the same parity, the lowest
    /// such one becomes current.
    pub fn find_first_anchor_to_commit(&self, direct_anchor: NodeMetadata) -> (r: NodeMetadata)
        requires
            self.wf(),
            self@.dag.has(direct_anchor.pos()),
            self@.dag.nodes[direct_anchor.pos()].metadata == direct_anchor,
            self@.lowest_unordered_round <= direct_anchor.round,
        ensures
            r == backfill(self@, self.election(), direct_anchor),
            self@.dag.has(r.pos()),
            self@.dag.nodes[r.pos()].metadata == r,
            r.round % 2 == direct_anchor.round % 2,
            self@.lowest_unordered_round <= r.round <= direct_anchor.round,
    {
        let ghost g = self.dag@;
        let ghost e = self.election();
        let ghost floor = self@.lowest_unordered_round;
        let mut current_anchor = direct_anchor;
        proof {
            lemma_earliest_idempotent(g, e, direct_anchor, floor);
        }
        loop
            invariant
                self.wf(),
                g == self.dag@,
                e == self.election(),
                floor == self@.lowest_unordered_round,
                g.has(current_anchor.pos()),
                g.nodes[current_anchor.pos()].metadata == current_anchor,
                current_anchor.round % 2 == direct_anchor.round % 2,
                floor <= current_anchor.round <= direct_anchor.round,
                earliest_anchor(g, e, current_anchor, floor) == earliest_anchor(g, e, direct_anchor, floor),
                current_anchor == direct_anchor || earliest_anchor(g, e, current_anchor, floor) == current_anchor,
            decreases current_anchor.round,
        {
            match self.deepest_anchor_below(&current_anchor, direct_anchor.round) {
                Some(next_anchor) => {
                    proof {
                        lemma_earliest_idempotent(g, e, current_anchor, floor);
                    }
                    current_anchor = next_anchor;
                },
                None => {
                    return current_anchor;
                },
            }
        }
    }
}

} // verus!
