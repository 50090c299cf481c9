//! Plain data shared by the DAG store and the commit rule.
use vstd::prelude::*;

verus! {

/// A round of the DAG.
pub type Round = u64;

/// A validator of the current epoch, by its index in the validator set.
pub type Author = u64;

/// A digest that identifies the contents of a node.
pub type Digest = u64;

/// The identity of a node: its round, its author and its digest.
#[derive(Clone, Copy, Debug, PartialEq, Eq, Structural)]
pub struct NodeMetadata {
    pub round: Round,
    pub author: Author,
    pub digest: Digest,
}

impl NodeMetadata {
    pub fn new(round: Round, author: Author, digest: Digest) -> (r: Self)
        ensures
            r.round == round,
            r.author == author,
            r.digest == digest,
    {
        NodeMetadata { round, author, digest }
    }

    pub fn round(&self) -> (r: Round)
        ensures
            r == self.round,
    {
        self.round
    }

    pub fn author(&self) -> (r: Author)
        ensures
            r == self.author,
    {
        self.author
    }

    pub fn digest(&self) -> (r: Digest)
        ensures
            r == self.digest,
    {
        self.digest
    }

    /// The position of the node in the DAG: `(round, author)`.
    pub open spec fn pos(self) -> (int, int) {
        (self.round as int, self.author as int)
    }
}

/// A certified node: its metadata and the metadata of its parents, which
/// all sit one round below it.
#[derive(Debug)]
pub struct CertifiedNode {
    pub metadata: NodeMetadata,
    pub parents: Vec<NodeMetadata>,
}

/// What a certified node holds, as plain values.
pub ghost struct NodeView {
    pub metadata: NodeMetadata,
    pub parents: Seq<NodeMetadata>,
}

impl View for CertifiedNode {
    type V = NodeView;

    open spec fn view(&self) -> NodeView {
        NodeView { metadata: self.metadata, parents: self.parents@ }
    }
}

impl CertifiedNode {
    pub fn new(metadata: NodeMetadata, parents: Vec<NodeMetadata>) -> (r: Self)
        ensures
            r@ == (NodeView { metadata, parents: parents@ }),
    {
        CertifiedNode { metadata, parents }
    }

    pub fn metadata(&self) -> (r: &NodeMetadata)
        ensures
            *r == self.metadata,
    {
        &self.metadata
    }

    pub fn round(&self) -> (r: Round)
        ensures
            r == self.metadata.round,
    {
        self.metadata.round
    }

    pub fn author(&self) -> (r: Author)
        ensures
            r == self.metadata.author,
    {
        self.metadata.author
    }

    pub fn parents(&self) -> (r: &Vec<NodeMetadata>)
        ensures
            r@ == self.parents@,
    {
        &self.parents
    }

    /// A copy of the node with the same metadata and parents.
    pub fn duplicate(&self) -> (r: Self)
        ensures
            r@ == self@,
    {
        let mut parents: Vec<NodeMetadata> = Vec::new();
        let mut i: usize = 0;
        while i < self.parents.len()
            invariant
                i <= self.parents@.len(),
                parents@ == self.parents@.subrange(0, i as int),
            decreases self.parents@.len() - i,
        {
            parents.push(self.parents[i]);
            i = i + 1;
            assert(parents@ =~= self.parents@.subrange(0, i as int));
        }
        assert(parents@ =~= self.parents@);
        CertifiedNode { metadata: self.metadata, parents }
    }

    /// Whether `m` is among the parents of this node.
    pub fn has_parent(&self, m: &NodeMetadata) -> (r: bool)
        ensures
            r == self.parents@.contains(*m),
    {
        let mut i: usize = 0;
        while i < self.parents.len()
            invariant
                i <= self.parents@.len(),
                forall|j: int| 0 <= j < i ==> self.parents@[j] != *m,
            decreases self.parents@.len() - i,
        {
            if self.parents[i] == *m {
                return true;
            }
            i = i + 1;
        }
        false
    }
}

} // verus!
