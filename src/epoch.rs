//! The validator set of an epoch: a voting power per validator and the
//! quorum of more than two thirds of the total.
use vstd::prelude::*;
use crate::types::Author;

verus! {

/// The voting power of author `a`; an author outside the set has none.
pub open spec fn power_of(powers: Seq<u64>, a: int) -> int {
    if 0 <= a < powers.len() {
        powers[a] as int
    } else {
        0
    }
}

/// The total voting power of the first `k` validators.
pub open spec fn sum_powers(powers: Seq<u64>, k: int) -> int
    decreases k,
{
    if k <= 0 {
        0
    } else {
        sum_powers(powers, k - 1) + power_of(powers, k - 1)
    }
}

/// The voting power a quorum needs: more than two thirds of `total`.
pub open spec fn quorum_of(total: int) -> int {
    total * 2 / 3 + 1
}

proof fn lemma_sum_bound(powers: Seq<u64>, k: int)
    requires
        0 <= k,
    ensures
        0 <= sum_powers(powers, k) <= k * (u64::MAX as int),
    decreases k,
{
    if k > 0 {
        lemma_sum_bound(powers, k - 1);
    }
}

/// The voting powers of the validators of an epoch.
pub struct ValidatorVerifier {
    voting_powers: Vec<u64>,
    total_voting_power: u128,
    quorum_voting_power: u128,
}

impl ValidatorVerifier {
    /// The voting power of each validator, by index.
    pub closed spec fn powers(&self) -> Seq<u64> {
        self.voting_powers@
    }

    pub open spec fn total_power(&self) -> int {
        sum_powers(self.powers(), self.powers().len() as int)
    }

    pub open spec fn quorum_power(&self) -> int {
        quorum_of(self.total_power())
    }

    pub closed spec fn inv(&self) -> bool {
        &&& self.total_voting_power as int == self.total_power()
        &&& self.quorum_voting_power as int == self.quorum_power()
    }

    /// A validator set with these voting powers, validator `i` holding
    /// `voting_powers[i]`.
    pub fn new(voting_powers: Vec<u64>) -> (v: Self)
        ensures
            v.inv(),
            v.powers() == voting_powers@,
    {
        let mut total: u128 = 0;
        let mut i: usize = 0;
        while i < voting_powers.len()
            invariant
                i <= voting_powers@.len(),
                total as int == sum_powers(voting_powers@, i as int),
            decreases voting_powers@.len() - i,
        {
            proof {
                lemma_sum_bound(voting_powers@, i as int);
                assert(i as int * (u64::MAX as int) + u64::MAX as int <= u128::MAX) by (nonlinear_arith)
                    requires
                        i < usize::MAX,
                ;
            }
            total = total + voting_powers[i] as u128;
            i = i + 1;
        }
        let third = total / 3;
        let rest = total % 3;
        assert(third * 2 + rest * 2 / 3 == total * 2 / 3) by (nonlinear_arith)
            requires
                third == total / 3,
                rest == total % 3,
        ;
        let quorum = third * 2 + rest * 2 / 3 + 1;
        ValidatorVerifier { voting_powers, total_voting_power: total, quorum_voting_power: quorum }
    }

    pub fn len(&self) -> (r: usize)
        ensures
            r == self.powers().len(),
    {
        self.voting_powers.len()
    }

    /// The voting power of `author`, zero outside the set.
    pub fn get_voting_power(&self, author: Author) -> (r: u64)
        ensures
            r as int == power_of(self.powers(), author as int),
    {
        if author < self.voting_powers.len() as u64 {
            self.voting_powers[author as usize]
        } else {
            0
        }
    }

    pub fn total_voting_power(&self) -> (r: u128)
        requires
            self.inv(),
        ensures
            r as int == self.total_power(),
    {
        self.total_voting_power
    }

    /// The voting power a quorum needs.
    pub fn quorum_voting_power(&self) -> (r: u128)
        requires
            self.inv(),
        ensures
            r as int == self.quorum_power(),
    {
        self.quorum_voting_power
    }
}

/// The state of an epoch that the commit rule reads: its number and its
/// validator set.
pub struct EpochState {
    pub epoch: u64,
    pub verifier: ValidatorVerifier,
}

impl EpochState {
    pub fn new(epoch: u64, verifier: ValidatorVerifier) -> (e: Self)
        ensures
            e.epoch == epoch,
            e.verifier == verifier,
    {
        EpochState { epoch, verifier }
    }
}

} // verus!
