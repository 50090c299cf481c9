//! Anchor election: which validator's node anchors each round.
use vstd::prelude::*;
use crate::types::{Author, Round};

verus! {

/// A deterministic choice of one author per round. The same round gives
/// the same author on every validator.
pub trait AnchorElection {
    /// The author elected for `round`.
    spec fn anchor_of(&self, round: int) -> int;

    fn get_anchor(&self, round: Round) -> (a: Author)
        ensures
            a as int == self.anchor_of(round as int),
    ;
}

/// Round-robin election: consecutive anchor rounds take the validators of
/// the list in turn.
pub struct RoundRobinAnchorElection {
    validators: Vec<Author>,
}

impl RoundRobinAnchorElection {
    pub closed spec fn validators(&self) -> Seq<Author> {
        self.validators@
    }

    pub fn new(validators: Vec<Author>) -> (e: Self)
        ensures
            e.validators() == validators@,
    {
        RoundRobinAnchorElection { validators }
    }
}

impl AnchorElection for RoundRobinAnchorElection {
    /// Round `r` elects entry `(r / 2) % len` of the list (author 0 for an
    /// empty list).
    open spec fn anchor_of(&self, round: int) -> int {
        let vs = self.validators();
        if vs.len() == 0 {
            0
        } else {
            vs[(round / 2) % (vs.len() as int)] as int
        }
    }

    fn get_anchor(&self, round: Round) -> (a: Author) {
        let len = self.validators.len();
        if len == 0 {
            0
        } else {
            let i = ((round / 2) % (len as u64)) as usize;
            self.validators[i]
        }
    }
}

} // verus!
