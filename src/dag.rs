//! The DAG store: certified nodes by `(round, author)`, their parent edges,
//! and the flag that marks a node as ordered.
use vstd::prelude::*;
use crate::epoch::{power_of, ValidatorVerifier};
use crate::types::{Author, CertifiedNode, NodeMetadata, NodeView, Round};

verus! {

/// A position in the DAG: `(round, author)`.
pub type Pos = (int, int);

/// The contents of a DAG as plain values.
pub ghost struct DagModel {
    /// The lowest round the store can hold.
    pub start_round: int,
    /// The number of validators; authors are `0 .. num_validators`.
    pub num_validators: int,
    /// The certified nodes, by position.
    pub nodes: Map<Pos, NodeView>,
    /// The positions of the nodes that have been ordered.
    pub ordered: Set<Pos>,
}

impl DagModel {
    pub open spec fn has(self, p: Pos) -> bool {
        self.nodes.contains_key(p)
    }

    /// `p` is a parent of `c`: both are in the DAG, `p` is one round below,
    /// and `c` lists the metadata of `p` among its parents.
    pub open spec fn is_parent(self, c: Pos, p: Pos) -> bool {
        &&& self.has(c)
        &&& self.has(p)
        &&& p.0 == c.0 - 1
        &&& self.nodes[c].parents.contains(self.nodes[p].metadata)
    }

    /// `to` can be reached from `from` by parent edges (`from` reaches itself).
    pub open spec fn reachable(self, from: Pos, to: Pos) -> bool
        decreases from.0 - to.0,
    {
        if to.0 >= from.0 {
            to == from && self.has(from)
        } else {
            exists|c: Pos| #[trigger] self.is_parent(c, to) && c.0 == to.0 + 1 && self.reachable(from, c)
        }
    }

    /// The metadata of every parent is one round below its child and names
    /// a node of the DAG.
    pub open spec fn parents_resolve(self) -> bool {
        forall|p: Pos, i: int|
            #![trigger self.nodes[p].parents[i]]
            self.has(p) && 0 <= i < self.nodes[p].parents.len() ==> {
                let q = self.nodes[p].parents[i];
                &&& q.round == p.0 - 1
                &&& self.has(q.pos())
                &&& self.nodes[q.pos()].metadata == q
            }
    }

    /// Every parent of an ordered node is ordered.
    pub open spec fn ordered_closed(self) -> bool {
        forall|c: Pos, p: Pos|
            #![trigger self.ordered.contains(c), self.is_parent(c, p)]
            self.ordered.contains(c) && self.is_parent(c, p) ==> self.ordered.contains(p)
    }

    /// Each node sits at the position its metadata names, within the
    /// store's rounds and validators; parents resolve; only nodes of the
    /// DAG are ordered, and the ordered ones are closed under parents.
    pub open spec fn wf(self) -> bool {
        &&& 0 <= self.start_round
        &&& forall|p: Pos|
            #[trigger] self.has(p) ==> {
                &&& self.start_round <= p.0
                &&& 0 <= p.1 < self.num_validators
                &&& self.nodes[p].metadata.pos() == p
            }
        &&& self.parents_resolve()
        &&& forall|p: Pos| #[trigger] self.ordered.contains(p) ==> self.has(p)
        &&& self.ordered_closed()
    }

    /// The DAG after a node is added, unordered.
    pub open spec fn add(self, n: NodeView) -> DagModel {
        DagModel { nodes: self.nodes.insert(n.metadata.pos(), n), ..self }
    }

    /// The node of author `a` one round above `m` lists `m` as a parent.
    pub open spec fn is_vote(self, m: NodeMetadata, a: int) -> bool {
        &&& self.has((m.round + 1, a))
        &&& self.nodes[(m.round + 1, a)].parents.contains(m)
    }

    /// The voting power of the authors `0 .. k` that vote for `m`.
    pub open spec fn vote_stake(self, m: NodeMetadata, powers: Seq<u64>, k: int) -> int
        decreases k,
    {
        if k <= 0 {
            0
        } else {
            self.vote_stake(m, powers, k - 1) + if self.is_vote(m, k - 1) {
                power_of(powers, k - 1)
            } else {
                0
            }
        }
    }

    /// The votes for `m` carry a quorum of the voting power.
    pub open spec fn has_quorum(self, m: NodeMetadata, v: ValidatorVerifier) -> bool {
        self.vote_stake(m, v.powers(), self.num_validators) >= v.quorum_power()
    }

    /// The DAG once every node reachable from `from` is ordered.
    pub open spec fn order_from(self, from: Pos) -> DagModel {
        DagModel { ordered: self.ordered.union(Set::new(|p: Pos| self.reachable(from, p))), ..self }
    }

    /// `p` is reachable from `from` and not yet ordered.
    pub open spec fn newly_ordered(self, from: Pos, p: Pos) -> bool {
        self.reachable(from, p) && !self.ordered.contains(p)
    }

    /// The nodes of round `r` with an author below `k` that ordering from
    /// `from` adds, by author.
    pub open spec fn row_batch(self, from: Pos, r: int, k: int) -> Seq<NodeMetadata>
        decreases k,
    {
        if k <= 0 {
            Seq::empty()
        } else {
            self.row_batch(from, r, k - 1) + if self.newly_ordered(from, (r, k - 1)) {
                seq![self.nodes[(r, k - 1)].metadata]
            } else {
                Seq::empty()
            }
        }
    }

    /// The nodes of rounds `lo ..= hi` that ordering from `from` adds,
    /// by round, then by author.
    pub open spec fn batch_upto(self, from: Pos, lo: int, hi: int) -> Seq<NodeMetadata>
        decreases hi - lo + 1,
    {
        if hi < lo {
            Seq::empty()
        } else {
            self.batch_upto(from, lo, hi - 1) + self.row_batch(from, hi, self.num_validators)
        }
    }

    /// The nodes that ordering from `from` adds, parents before children:
    /// by round, then by author.
    pub open spec fn batch(self, from: Pos) -> Seq<NodeMetadata> {
        self.batch_upto(from, self.start_round, from.0)
    }

    /// A node may be added at round `r`: the start round, or a round just
    /// above one that holds a node.
    pub open spec fn round_open(self, r: int) -> bool {
        self.start_round <= r && (r == self.start_round || exists|a: int| #[trigger] self.has((r - 1, a)))
    }

    /// Every parent of `n` is one round below it and is in the DAG.
    pub open spec fn parents_present(self, n: NodeView) -> bool {
        forall|i: int|
            0 <= i < n.parents.len() ==> {
                let q = #[trigger] n.parents[i];
                &&& q.round == n.metadata.round - 1
                &&& self.has(q.pos())
                &&& self.nodes[q.pos()].metadata == q
            }
    }
}

pub proof fn lemma_reachable_has(g: DagModel, from: Pos, to: Pos)
    requires
        g.reachable(from, to),
    ensures
        g.has(to),
        to.0 <= from.0,
{
}

/// Adding a node whose author is a validator, whose round is not below the
/// start round, whose position is free and whose parents resolve keeps the
/// DAG well formed.
pub proof fn lemma_add_wf(g: DagModel, n: NodeView)
    requires
        g.wf(),
        0 <= n.metadata.author < g.num_validators,
        g.start_round <= n.metadata.round,
        !g.has(n.metadata.pos()),
        g.parents_present(n),
    ensures
        g.add(n).wf(),
{
    let h = g.add(n);
    assert forall|p: Pos| #[trigger] h.has(p) implies {
        &&& h.start_round <= p.0
        &&& 0 <= p.1 < h.num_validators
        &&& h.nodes[p].metadata.pos() == p
    } by {
        if p != n.metadata.pos() {
            assert(g.has(p));
        }
    }
    assert forall|p: Pos| #[trigger] h.ordered.contains(p) implies h.has(p) by {
        assert(g.has(p));
    }
    assert forall|c: Pos, p: Pos| h.ordered.contains(c) && h.is_parent(c, p) implies h.ordered.contains(p) by {
        assert(g.has(c));
        assert(c != n.metadata.pos());
        if p == n.metadata.pos() {
            let i = choose|i: int| 0 <= i < g.nodes[c].parents.len() && g.nodes[c].parents[i] == n.metadata;
            assert(g.nodes[c].parents[i] == n.metadata);
        }
        assert(g.is_parent(c, p));
    }
    assert forall|p: Pos, i: int|
        h.has(p) && 0 <= i < h.nodes[p].parents.len() implies {
            let q = #[trigger] h.nodes[p].parents[i];
            &&& q.round == p.0 - 1
            &&& h.has(q.pos())
            &&& h.nodes[q.pos()].metadata == q
        } by {
        if p == n.metadata.pos() {
            assert(n.parents[i] == h.nodes[p].parents[i]);
        } else {
            assert(g.nodes[p].parents[i] == h.nodes[p].parents[i]);
        }
    }
}

/// Reachability is transitive.
pub proof fn lemma_reachable_trans(g: DagModel, a: Pos, b: Pos, c: Pos)
    requires
        g.reachable(a, b),
        g.reachable(b, c),
    ensures
        g.reachable(a, c),
    decreases b.0 - c.0,
{
    lemma_reachable_has(g, a, b);
    if c.0 < b.0 {
        let c1 = choose|c1: Pos| #[trigger] g.is_parent(c1, c) && c1.0 == c.0 + 1 && g.reachable(b, c1);
        lemma_reachable_trans(g, a, b, c1);
        assert(g.is_parent(c1, c) && c1.0 == c.0 + 1 && g.reachable(a, c1));
    }
}

/// One round down: `(r - 1, b)` is reachable from `from` exactly when it is
/// a parent of a reachable node at round `r`.
pub proof fn lemma_reach_step(g: DagModel, from: Pos, r: int, b: int)
    requires
        g.wf(),
        r <= from.0,
    ensures
        g.reachable(from, (r - 1, b)) == exists|a: int|
            0 <= a < g.num_validators && g.reachable(from, (r, a)) && #[trigger] g.is_parent((r, a), (r - 1, b)),
{
    if g.reachable(from, (r - 1, b)) {
        let c = choose|c: Pos| #[trigger] g.is_parent(c, (r - 1, b)) && c.0 == r && g.reachable(from, c);
        assert(g.has(c));
        assert(c == (r, c.1));
        assert(g.is_parent((r, c.1), (r - 1, b)));
    }
    if exists|a: int| 0 <= a < g.num_validators && g.reachable(from, (r, a)) && #[trigger] g.is_parent((r, a), (r - 1, b)) {
        let a = choose|a: int| 0 <= a < g.num_validators && g.reachable(from, (r, a)) && #[trigger] g.is_parent((r, a), (r - 1, b));
        assert(g.is_parent((r, a), (r - 1, b)) && (r, a).0 == (r - 1) + 1 && g.reachable(from, (r, a)));
    }
}

/// Ordering every node reachable from a node keeps the DAG well formed: in
/// particular every parent of an ordered node stays ordered.
pub proof fn lemma_order_from_wf(g: DagModel, from: Pos)
    requires
        g.wf(),
    ensures
        g.order_from(from).wf(),
{
    let h = g.order_from(from);
    assert(h.nodes == g.nodes);
    assert(h.parents_resolve());
    assert forall|p: Pos| #[trigger] h.has(p) implies {
        &&& h.start_round <= p.0
        &&& 0 <= p.1 < h.num_validators
        &&& h.nodes[p].metadata.pos() == p
    } by {
        assert(g.has(p));
    }
    assert forall|p: Pos| #[trigger] h.ordered.contains(p) implies h.has(p) by {
        if g.reachable(from, p) {
            lemma_reachable_has(g, from, p);
        }
    }
    assert forall|c: Pos, p: Pos| h.ordered.contains(c) && h.is_parent(c, p) implies h.ordered.contains(p) by {
        if g.ordered.contains(c) {
            assert(g.is_parent(c, p));
        } else {
            assert(g.reachable(from, c));
            lemma_reachable_has(g, from, c);
            assert(g.is_parent(c, p) && c.0 == p.0 + 1 && g.reachable(from, c));
            assert(g.reachable(from, p));
        }
    }
    assert(h.ordered_closed());
}

/// Row `i` holds at least one node.
spec fn row_occupied(rows: Seq<Vec<Option<CertifiedNode>>>, n: int, i: int) -> bool {
    exists|a: int| 0 <= a < n && (#[trigger] rows[i]@[a]).is_some()
}

/// Reachability depends on the nodes alone, not on which are ordered.
pub proof fn lemma_reachable_same_nodes(g: DagModel, h: DagModel, from: Pos, to: Pos)
    requires
        g.nodes == h.nodes,
    ensures
        g.reachable(from, to) == h.reachable(from, to),
    decreases from.0 - to.0,
{
    if to.0 < from.0 {
        if g.reachable(from, to) {
            let c = choose|c: Pos| #[trigger] g.is_parent(c, to) && c.0 == to.0 + 1 && g.reachable(from, c);
            lemma_reachable_same_nodes(g, h, from, c);
            assert(h.is_parent(c, to));
        }
        if h.reachable(from, to) {
            let c = choose|c: Pos| #[trigger] h.is_parent(c, to) && c.0 == to.0 + 1 && h.reachable(from, c);
            lemma_reachable_same_nodes(g, h, from, c);
            assert(g.is_parent(c, to));
        }
    }
}

/// The nodes of a row batch: round `r`, an author below `k`, newly
/// ordered, each once.
pub proof fn lemma_row_batch(g: DagModel, from: Pos, r: int, k: int)
    requires
        g.wf(),
    ensures
        g.row_batch(from, r, k).no_duplicates(),
        forall|i: int|
            0 <= i < g.row_batch(from, r, k).len() ==> {
                let x = #[trigger] g.row_batch(from, r, k)[i];
                &&& x.round == r
                &&& x.author < k
                &&& g.newly_ordered(from, x.pos())
                &&& g.nodes[x.pos()].metadata == x
            },
    decreases k,
{
    if k > 0 {
        lemma_row_batch(g, from, r, k - 1);
        let s = g.row_batch(from, r, k - 1);
        if g.newly_ordered(from, (r, k - 1)) {
            lemma_reachable_has(g, from, (r, k - 1));
            let x = g.nodes[(r, k - 1)].metadata;
            assert(x.pos() == (r, k - 1));
            vstd::seq_lib::lemma_no_dup_in_concat(s, seq![x]);
            assert forall|i: int| 0 <= i < g.row_batch(from, r, k).len() implies {
                let y = #[trigger] g.row_batch(from, r, k)[i];
                &&& y.round == r
                &&& y.author < k
                &&& g.newly_ordered(from, y.pos())
                &&& g.nodes[y.pos()].metadata == y
            } by {
                if i < s.len() {
                    assert(g.row_batch(from, r, k)[i] == s[i]);
                }
            }
        } else {
            assert(g.row_batch(from, r, k) =~= s);
        }
    }
}

/// The nodes of `batch_upto`: rounds `lo ..= hi`, newly ordered, each once.
pub proof fn lemma_batch_upto(g: DagModel, from: Pos, lo: int, hi: int)
    requires
        g.wf(),
    ensures
        g.batch_upto(from, lo, hi).no_duplicates(),
        forall|i: int|
            0 <= i < g.batch_upto(from, lo, hi).len() ==> {
                let x = #[trigger] g.batch_upto(from, lo, hi)[i];
                &&& lo <= x.round <= hi
                &&& g.newly_ordered(from, x.pos())
                &&& g.nodes[x.pos()].metadata == x
            },
    decreases hi - lo + 1,
{
    if hi >= lo {
        lemma_batch_upto(g, from, lo, hi - 1);
        lemma_row_batch(g, from, hi, g.num_validators);
        let s = g.batch_upto(from, lo, hi - 1);
        let t = g.row_batch(from, hi, g.num_validators);
        assert forall|i: int, j: int| 0 <= i < s.len() && 0 <= j < t.len() implies s[i] != t[j] by {
            assert(s[i].round <= hi - 1);
            assert(t[j].round == hi);
        }
        vstd::seq_lib::lemma_no_dup_in_concat(s, t);
        assert forall|i: int| 0 <= i < g.batch_upto(from, lo, hi).len() implies {
            let y = #[trigger] g.batch_upto(from, lo, hi)[i];
            &&& lo <= y.round <= hi
            &&& g.newly_ordered(from, y.pos())
            &&& g.nodes[y.pos()].metadata == y
        } by {
            if i < s.len() {
                assert(g.batch_upto(from, lo, hi)[i] == s[i]);
            } else {
                assert(g.batch_upto(from, lo, hi)[i] == t[i - s.len()]);
            }
        }
    }
}

/// Every node of the batch of `from` is reachable from it and was not
/// ordered; none comes twice; once ordered from `from`, all are ordered.
pub proof fn lemma_batch(g: DagModel, from: Pos)
    requires
        g.wf(),
    ensures
        g.batch(from).no_duplicates(),
        forall|i: int|
            0 <= i < g.batch(from).len() ==> {
                let x = #[trigger] g.batch(from)[i];
                &&& g.newly_ordered(from, x.pos())
                &&& g.nodes[x.pos()].metadata == x
                &&& g.order_from(from).ordered.contains(x.pos())
            },
{
    lemma_batch_upto(g, from, g.start_round, from.0);
}

/// Why a node was refused by the store.
#[derive(Clone, Copy, Debug, PartialEq, Eq, Structural)]
pub enum DagError {
    /// The author is not a validator of the epoch.
    UnknownAuthor,
    /// The round is below the start round, or more than one past the
    /// highest round of the store.
    RoundOutOfRange,
    /// A node already stands at this `(round, author)`.
    AlreadyExists,
    /// A parent is not one round below, or is not in the store.
    MissingParent,
}

/// The DAG store.
pub struct Dag {
    start_round: Round,
    num_validators: usize,
    nodes: Vec<Vec<Option<CertifiedNode>>>,
    ordered: Vec<Vec<bool>>,
}

impl Dag {
    /// The node stored at a position, if any.
    pub closed spec fn slot(&self, p: Pos) -> Option<CertifiedNode> {
        let i = p.0 - self.start_round;
        if 0 <= i < self.nodes@.len() && 0 <= p.1 < self.nodes@[i]@.len() {
            self.nodes@[i]@[p.1]
        } else {
            None
        }
    }

    pub closed spec fn slot_ordered(&self, p: Pos) -> bool {
        let i = p.0 - self.start_round;
        0 <= i < self.ordered@.len() && 0 <= p.1 < self.ordered@[i]@.len() && self.ordered@[i]@[p.1]
    }

    pub closed spec fn row_occupied(&self, i: int) -> bool {
        row_occupied(self.nodes@, self.num_validators as int, i)
    }

    /// The number of rounds the store has rows for.
    pub closed spec fn num_rounds(&self) -> int {
        self.nodes@.len() as int
    }

    /// The layout of the store agrees with its model.
    pub closed spec fn inv(&self) -> bool {
        &&& self.nodes@.len() == self.ordered@.len()
        &&& self.start_round as int + self.nodes@.len() <= u64::MAX as int + 1
        &&& forall|i: int|
            0 <= i < self.nodes@.len() ==> {
                &&& (#[trigger] self.nodes@[i])@.len() == self.num_validators
                &&& self.ordered@[i]@.len() == self.num_validators
            }
        &&& forall|i: int, a: int|
            0 <= i < self.nodes@.len() && 0 <= a < self.num_validators && (#[trigger] self.nodes@[i]@[a]).is_some()
                ==> self.nodes@[i]@[a].unwrap().metadata.pos() == (self.start_round + i, a)
        &&& forall|i: int, a: int|
            0 <= i < self.nodes@.len() && 0 <= a < self.num_validators && #[trigger] self.ordered@[i]@[a]
                ==> self.nodes@[i]@[a].is_some()
        &&& forall|i: int|
            0 <= i < self.nodes@.len() ==> #[trigger] self.row_occupied(i)
    }

    pub open spec fn wf(&self) -> bool {
        self.inv() && self@.wf()
    }
}

impl View for Dag {
    type V = DagModel;

    closed spec fn view(&self) -> DagModel {
        DagModel {
            start_round: self.start_round as int,
            num_validators: self.num_validators as int,
            nodes: Map::new(|p: Pos| self.slot(p).is_some(), |p: Pos| self.slot(p).unwrap()@),
            ordered: Set::new(|p: Pos| self.slot(p).is_some() && self.slot_ordered(p)),
        }
    }
}

impl Dag {
    /// An empty store for rounds from `start_round` on, with
    /// `num_validators` validators.
    pub fn new(start_round: Round, num_validators: usize) -> (d: Dag)
        ensures
            d.wf(),
            d@.start_round == start_round,
            d@.num_validators == num_validators,
            d@.nodes == Map::<Pos, NodeView>::empty(),
            d@.ordered == Set::<Pos>::empty(),
    {
        let d = Dag { start_round, num_validators, nodes: Vec::new(), ordered: Vec::new() };
        assert(d@.nodes =~= Map::<Pos, NodeView>::empty());
        assert(d@.ordered =~= Set::<Pos>::empty());
        d
    }

    pub fn start_round(&self) -> (r: Round)
        ensures
            r == self@.start_round,
    {
        self.start_round
    }

    pub fn num_validators(&self) -> (r: usize)
        ensures
            r == self@.num_validators,
    {
        self.num_validators
    }

    /// The node at `(round, author)`, if the store holds one.
    pub fn get_node_by_round_author(&self, round: Round, author: Author) -> (r: Option<&CertifiedNode>)
        requires
            self.wf(),
        ensures
            r.is_some() == self@.has((round as int, author as int)),
            r.is_some() ==> r.unwrap()@ == self@.nodes[(round as int, author as int)],
    {
        if round < self.start_round || author >= self.num_validators as u64 {
            return None;
        }
        let i = round - self.start_round;
        if i >= self.nodes.len() as u64 {
            return None;
        }
        match &self.nodes[i as usize][author as usize] {
            Some(n) => Some(n),
            None => None,
        }
    }

    /// Adds a certified node, unordered. It is refused where its author is
    /// not a validator, its round is out of range, its position is taken, or
    /// a parent does not resolve; the store is then unchanged.
    pub fn add_node(&mut self, node: CertifiedNode) -> (r: Result<(), DagError>)
        requires
            old(self).wf(),
        ensures
            final(self).wf(),
            ({
                let g = old(self)@;
                let m = node@.metadata;
                if m.author >= g.num_validators {
                    r == Err::<(), DagError>(DagError::UnknownAuthor)
                } else if !g.round_open(m.round as int) {
                    r == Err::<(), DagError>(DagError::RoundOutOfRange)
                } else if g.has(m.pos()) {
                    r == Err::<(), DagError>(DagError::AlreadyExists)
                } else if !g.parents_present(node@) {
                    r == Err::<(), DagError>(DagError::MissingParent)
                } else {
                    r is Ok && final(self)@ == g.add(node@)
                }
            }),
            r is Err ==> final(self)@ == old(self)@,
    {
        let m = node.metadata;
        if m.author >= self.num_validators as u64 {
            return Err(DagError::UnknownAuthor);
        }
        if m.round < self.start_round {
            return Err(DagError::RoundOutOfRange);
        }
        let i = m.round - self.start_round;
        if i > self.nodes.len() as u64 {
            proof {
                if m.round as int != self@.start_round {
                    assert forall|a: int| !#[trigger] self@.has((m.round - 1, a)) by {}
                }
            }
            return Err(DagError::RoundOutOfRange);
        }
        proof {
            if i > 0 {
                assert(self.row_occupied(i - 1));
                let a0 = choose|a: int| 0 <= a < self.num_validators && (#[trigger] self.nodes@[i - 1]@[a]).is_some();
                assert(self@.has((m.round - 1, a0)));
            }
        }
        let a = m.author as usize;
        if i < self.nodes.len() as u64 && self.nodes[i as usize][a].is_some() {
            assert(self@.has(m.pos()));
            return Err(DagError::AlreadyExists);
        }
        let mut j: usize = 0;
        while j < node.parents.len()
            invariant
                self.wf(),
                self@ == old(self)@,
                m == node@.metadata,
                (m.author as int) < self@.num_validators,
                self@.round_open(m.round as int),
                !self@.has(m.pos()),
                j <= node.parents@.len(),
                forall|k: int|
                    0 <= k < j ==> {
                        let q = #[trigger] node.parents@[k];
                        &&& q.round == m.round - 1
                        &&& self@.has(q.pos())
                        &&& self@.nodes[q.pos()].metadata == q
                    },
            decreases node.parents@.len() - j,
        {
            let q = node.parents[j];
            proof {
                assert(q == node@.parents[j as int]);
            }
            if m.round == 0 || q.round != m.round - 1 {
                return Err(DagError::MissingParent);
            }
            match self.get_node_by_round_author(q.round, q.author) {
                Some(p) => {
                    if p.metadata != q {
                        assert(!self@.parents_present(node@));
                        return Err(DagError::MissingParent);
                    }
                },
                None => {
                    assert(!self@.parents_present(node@));
                    return Err(DagError::MissingParent);
                },
            }
            j = j + 1;
        }
        let ghost g = self@;
        if i == self.nodes.len() as u64 {
            let mut row: Vec<Option<CertifiedNode>> = Vec::new();
            let mut flags: Vec<bool> = Vec::new();
            let mut k: usize = 0;
            while k < self.num_validators
                invariant
                    k <= self.num_validators,
                    row@.len() == k,
                    flags@.len() == k,
                    forall|x: int| 0 <= x < k ==> (#[trigger] row@[x]).is_none() && !flags@[x],
                decreases self.num_validators - k,
            {
                row.push(None);
                flags.push(false);
                k = k + 1;
            }
            self.nodes.push(row);
            self.ordered.push(flags);
            assert(self@.nodes =~= g.nodes);
            assert(self@.ordered =~= g.ordered);
        }
        let ghost g1 = self@;
        let ghost g1_nodes = self.nodes@;
        assert(forall|x: int| 0 <= x < old(self).nodes@.len() ==> g1_nodes[x] == old(self).nodes@[x]);
        self.nodes[i as usize][a] = Some(node);
        proof {
            assert(self@.nodes =~= g1.nodes.insert(m.pos(), self.nodes@[i as int]@[a as int].unwrap()@));
            assert(self@.ordered =~= g1.ordered);
            assert(self@ == g.add(node@));
            assert forall|x: int| 0 <= x < self.nodes@.len() implies #[trigger] self.row_occupied(x) by {
                if x == i {
                    assert(self.nodes@[x]@[a as int].is_some());
                } else {
                    assert(self.nodes@[x] == g1_nodes[x]);
                    assert(old(self).row_occupied(x) || x == old(self).nodes@.len());
                }
            }
            lemma_add_wf(g, node@);
        }
        Ok(())
    }

    /// Whether the nodes one round above `m` that list `m` as a parent
    /// carry a quorum of the voting power.
    pub fn check_votes_for_node(&self, m: &NodeMetadata, verifier: &ValidatorVerifier) -> (r: bool)
        requires
            self.wf(),
            verifier.inv(),
        ensures
            r == self@.has_quorum(*m, *verifier),
    {
        let ghost g = self@;
        let n = self.num_validators;
        let mut stake: u128 = 0;
        let mut a: usize = 0;
        while a < n
            invariant
                self.wf(),
                g == self@,
                n == g.num_validators,
                a <= n,
                stake as int == g.vote_stake(*m, verifier.powers(), a as int),
                stake as int <= a as int * (u64::MAX as int),
            decreases n - a,
        {
            let voted = if m.round < u64::MAX {
                match self.get_node_by_round_author(m.round + 1, a as u64) {
                    Some(v) => v.has_parent(m),
                    None => false,
                }
            } else {
                assert(!g.has((m.round + 1, a as int)));
                false
            };
            if voted {
                let p = verifier.get_voting_power(a as u64);
                assert(stake + p <= u128::MAX) by (nonlinear_arith)
                    requires
                        stake as int <= a as int * (u64::MAX as int),
                        p <= u64::MAX,
                        a < usize::MAX,
                ;
                stake = stake + p as u128;
            }
            a = a + 1;
        }
        stake >= verifier.quorum_voting_power()
    }

    /// The row of the round below `r` (row `ri`): for each author, whether
    /// its node there is a parent of a node at round `r` marked in `cur`.
    fn parents_row(&self, ri: usize, cur: &Vec<bool>) -> (next: Vec<bool>)
        requires
            self.wf(),
            1 <= ri < self.nodes@.len(),
            cur@.len() == self@.num_validators,
        ensures
            next@.len() == self@.num_validators,
            forall|b: int|
                0 <= b < self@.num_validators ==> next@[b] == exists|a: int|
                    0 <= a < self@.num_validators && cur@[a]
                        && #[trigger] self@.is_parent((self.start_round + ri, a), (self.start_round + ri - 1, b)),
    {
        let ghost g = self@;
        let ghost r = self.start_round + ri;
        let n = self.num_validators;
        let mut next: Vec<bool> = Vec::new();
        let mut b: usize = 0;
        while b < n
            invariant
                self.wf(),
                g == self@,
                r == self.start_round + ri,
                n == self@.num_validators,
                1 <= ri < self.nodes@.len(),
                cur@.len() == n,
                b <= n,
                next@.len() == b,
                forall|y: int|
                    0 <= y < b ==> next@[y] == exists|a: int|
                        0 <= a < n && cur@[a] && #[trigger] g.is_parent((r, a), (r - 1, y)),
            decreases n - b,
        {
            let mut hit = false;
            match &self.nodes[ri - 1][b] {
                Some(pb) => {
                    assert(g.has((r - 1, b as int)));
                    let mut a: usize = 0;
                    while a < n
                        invariant
                            self.wf(),
                            g == self@,
                            r == self.start_round + ri,
                            n == self@.num_validators,
                            1 <= ri < self.nodes@.len(),
                            cur@.len() == n,
                            b < n,
                            a <= n,
                            g.has((r - 1, b as int)),
                            pb@ == g.nodes[(r - 1, b as int)],
                            hit == exists|x: int|
                                0 <= x < a && cur@[x] && #[trigger] g.is_parent((r, x), (r - 1, b as int)),
                        decreases n - a,
                    {
                        if cur[a] {
                            match &self.nodes[ri][a] {
                                Some(ca) => {
                                    assert(g.has((r, a as int)));
                                    if ca.has_parent(&pb.metadata) {
                                        assert(g.is_parent((r, a as int), (r - 1, b as int)));
                                        hit = true;
                                    }
                                },
                                None => {
                                    assert(!g.has((r, a as int)));
                                },
                            }
                        }
                        a = a + 1;
                    }
                },
                None => {
                    assert(!g.has((r - 1, b as int)));
                },
            }
            next.push(hit);
            b = b + 1;
        }
        next
    }

    /// For each round from `from.round` down to `lo`, the highest of `floor`
    /// and the start round, and each author: whether that node is reachable
    /// from `from`. Row `k` is round `from.round - k`.
    pub fn reachable_marks(&self, from: &NodeMetadata, floor: Round) -> (marks: Vec<Vec<bool>>)
        requires
            self.wf(),
            self@.has(from.pos()),
            floor <= from.round,
        ensures
            ({
                let lo = if floor >= self@.start_round { floor as int } else { self@.start_round };
                &&& marks@.len() == from.round - lo + 1
                &&& forall|k: int|
                    0 <= k < marks@.len() ==> (#[trigger] marks@[k])@.len() == self@.num_validators
                &&& forall|k: int, a: int|
                    0 <= k < marks@.len() && 0 <= a < self@.num_validators ==> (#[trigger] marks@[k]@[a]
                        == self@.reachable(from.pos(), (from.round - k, a)))
            }),
    {
        let ghost g = self@;
        let ghost f = from.pos();
        let n = self.num_validators;
        let lo = if floor >= self.start_round { floor } else { self.start_round };
        let mut cur: Vec<bool> = Vec::new();
        let mut a: usize = 0;
        while a < n
            invariant
                self.wf(),
                g == self@,
                f == from.pos(),
                g.has(f),
                n == g.num_validators,
                a <= n,
                cur@.len() == a,
                forall|x: int| 0 <= x < a ==> cur@[x] == g.reachable(f, (from.round as int, x)),
            decreases n - a,
        {
            cur.push(a as u64 == from.author);
            a = a + 1;
        }
        let mut marks: Vec<Vec<bool>> = Vec::new();
        let mut r: u64 = from.round;
        while r > lo
            invariant
                self.wf(),
                g == self@,
                f == from.pos(),
                g.has(f),
                n == g.num_validators,
                lo <= r <= from.round,
                lo >= self.start_round,
                cur@.len() == n,
                forall|x: int| 0 <= x < n ==> cur@[x] == g.reachable(f, (r as int, x)),
                marks@.len() == from.round - r,
                forall|k: int| 0 <= k < marks@.len() ==> (#[trigger] marks@[k])@.len() == n,
                forall|k: int, x: int|
                    0 <= k < marks@.len() && 0 <= x < n ==> (#[trigger] marks@[k]@[x]
                        == g.reachable(f, (from.round - k, x))),
            decreases r,
        {
            proof {
                assert(g.has((from.round as int, from.author as int)));
            }
            let ri64 = r - self.start_round;
            assert(self.slot(f).is_some());
            assert(ri64 < self.nodes@.len());
            let rows = self.nodes.len();
            let ri = ri64 as usize;
            assert(self.start_round + ri == r);
            let next = self.parents_row(ri, &cur);
            proof {
                assert forall|x: int| 0 <= x < n implies next@[x] == g.reachable(f, (r - 1, x)) by {
                    lemma_reach_step(g, f, r as int, x);
                    if next@[x] {
                        let a = choose|a: int|
                            0 <= a < n && cur@[a] && #[trigger] g.is_parent((r as int, a), (r - 1, x));
                        assert(g.reachable(f, (r as int, a)));
                    }
                    if g.reachable(f, (r - 1, x)) {
                        let a = choose|a: int|
                            0 <= a < g.num_validators && g.reachable(f, (r as int, a))
                                && #[trigger] g.is_parent((r as int, a), (r - 1, x));
                        assert(cur@[a]);
                    }
                }
            }
            let ghost old_marks = marks@;
            marks.push(cur);
            cur = next;
            r = r - 1;
            proof {
                assert forall|k: int, x: int|
                    0 <= k < marks@.len() && 0 <= x < n implies (#[trigger] marks@[k]@[x]
                        == g.reachable(f, (from.round - k, x))) by {
                    if k < old_marks.len() {
                        assert(marks@[k] == old_marks[k]);
                    }
                }
            }
        }
        marks.push(cur);
        marks
    }

    /// Marks every node reachable from `from` as ordered, and returns those
    /// that were not ordered before, parents before children: by round,
    /// then by author.
    pub fn order_from(&mut self, from: &NodeMetadata) -> (batch: Vec<NodeMetadata>)
        requires
            old(self).wf(),
            old(self)@.has(from.pos()),
        ensures
            final(self).wf(),
            final(self)@ == old(self)@.order_from(from.pos()),
            batch@ == old(self)@.batch(from.pos()),
    {
        let ghost g = self@;
        let ghost f = from.pos();
        proof {
            assert(g.wf());
            assert(f.0 >= g.start_round);
        }
        let marks = self.reachable_marks(from, self.start_round);
        let n = self.num_validators;
        let mut batch: Vec<NodeMetadata> = Vec::new();
        let count = marks.len();
        let mut i: usize = 0;
        while i < count
            invariant
                count == marks@.len(),
                i <= count,
                self.inv(),
                g.wf(),
                f == from.pos(),
                g.has(f),
                n == g.num_validators,
                self@.start_round == g.start_round,
                self@.num_validators == n,
                self@.nodes == g.nodes,
                marks@.len() == from.round - g.start_round + 1,
                forall|k: int| 0 <= k < marks@.len() ==> (#[trigger] marks@[k])@.len() == n,
                forall|k: int, x: int|
                    0 <= k < marks@.len() && 0 <= x < n ==> (#[trigger] marks@[k]@[x]
                        == g.reachable(f, (from.round - k, x))),
                forall|p: Pos|
                    #[trigger] self@.ordered.contains(p) == (g.ordered.contains(p) || (g.reachable(f, p) && p.0
                        < g.start_round + i)),
                batch@ == g.batch_upto(f, g.start_round, g.start_round + i - 1),
            decreases count - i,
        {
            let r = self.start_round + i as u64;
            let k = (from.round - r) as usize;
            let ri64 = r - self.start_round;
            proof {
                assert(self.slot(f).is_some());
            }
            let rows = self.nodes.len();
            let ri = ri64 as usize;
            let mut a: usize = 0;
            while a < n
                invariant
                    self.inv(),
                    g.wf(),
                    f == from.pos(),
                    g.has(f),
                    n == g.num_validators,
                    self@.start_round == g.start_round,
                    self@.num_validators == n,
                    self@.nodes == g.nodes,
                    g.start_round <= r <= from.round,
                    k == from.round - r,
                    ri == r - g.start_round,
                    ri < self.nodes@.len(),
                    a <= n,
                    marks@.len() == from.round - g.start_round + 1,
                    forall|k: int| 0 <= k < marks@.len() ==> (#[trigger] marks@[k])@.len() == n,
                    forall|k: int, x: int|
                        0 <= k < marks@.len() && 0 <= x < n ==> (#[trigger] marks@[k]@[x]
                            == g.reachable(f, (from.round - k, x))),
                    forall|p: Pos|
                        #[trigger] self@.ordered.contains(p) == (g.ordered.contains(p) || (g.reachable(f, p) && (p.0
                            < r || (p.0 == r && p.1 < a)))),
                    batch@ == g.batch_upto(f, g.start_round, r - 1) + g.row_batch(f, r as int, a as int),
                decreases n - a,
            {
                let ghost p = (r as int, a as int);
                let ghost before = self@;
                let ghost before_flags = self.ordered@;
                let ghost before_nodes = self.nodes@;
                assert forall|x: int| 0 <= x < before_nodes.len() implies #[trigger] row_occupied(before_nodes, n as int, x) by {
                    assert(self.row_occupied(x));
                }
                assert(self@.ordered.contains(p) == g.ordered.contains(p));
                if marks[k][a] {
                    proof {
                        lemma_reachable_has(g, f, p);
                        assert(self.slot(p).is_some());
                    }
                    if !self.ordered[ri][a] {
                        assert(g.newly_ordered(f, p));
                        match &self.nodes[ri][a] {
                            Some(nd) => {
                                batch.push(nd.metadata);
                            },
                            None => {},
                        }
                        self.ordered[ri][a] = true;
                        proof {
                            assert(self.ordered@[ri as int]@ == before_flags[ri as int]@.update(a as int, true));
                            assert(self.nodes@ == before_nodes);
                            assert forall|x: int| 0 <= x < self.nodes@.len() implies #[trigger] self.row_occupied(x) by {
                                assert(row_occupied(before_nodes, n as int, x));
                                assert(self.row_occupied(x) == row_occupied(before_nodes, n as int, x));
                            }
                            assert forall|x: int| 0 <= x < self.nodes@.len() implies {
                                &&& (#[trigger] self.nodes@[x])@.len() == self.num_validators
                                &&& self.ordered@[x]@.len() == self.num_validators
                            } by {
                                if x != ri {
                                    assert(self.ordered@[x] == before_flags[x]);
                                }
                            }
                            assert forall|x: int, y: int|
                                0 <= x < self.nodes@.len() && 0 <= y < self.num_validators && #[trigger] self.ordered@[x]@[y]
                                    implies self.nodes@[x]@[y].is_some() by {
                                assert(self.ordered@[x]@.len() == self.num_validators);
                                if x != ri || y != a {
                                    assert(before_flags[x]@[y]);
                                }
                            }
                            assert(self@.nodes =~= before.nodes);
                            assert(self@.ordered =~= before.ordered.insert(p));
                        }
                    } else {
                        assert(!g.newly_ordered(f, p));
                    }
                } else {
                    assert(!g.newly_ordered(f, p));
                }
                a = a + 1;
                proof {
                    assert(batch@ =~= g.batch_upto(f, g.start_round, r - 1) + g.row_batch(f, r as int, a as int));
                }
            }
            i = i + 1;
        }
        proof {
            assert(self@.ordered =~= g.order_from(f).ordered);
            lemma_order_from_wf(g, f);
        }
        batch
    }

    /// Whether the node at `(round, author)` has been ordered.
    pub fn is_ordered(&self, round: Round, author: Author) -> (r: bool)
        requires
            self.wf(),
        ensures
            r == self@.ordered.contains((round as int, author as int)),
    {
        if round < self.start_round || author >= self.num_validators as u64 {
            return false;
        }
        let i = round - self.start_round;
        if i >= self.nodes.len() as u64 {
            return false;
        }
        self.nodes[i as usize][author as usize].is_some() && self.ordered[i as usize][author as usize]
    }
}

} // verus!
