//! The Fiat–Shamir transcript that commitments are observed into.

use vstd::prelude::*;

use crate::plonky3::{observe_commitment, observed_challenger, Challenger, Commitment};

verus! {

/// A challenger together with the record of the commitments it has observed,
/// in order, since it was wrapped.
pub struct Transcript {
    challenger: Challenger,
    observed: Ghost<Seq<Commitment>>,
}

impl Transcript {
    /// The commitments observed since the challenger was wrapped, oldest first.
    pub closed spec fn observed(&self) -> Seq<Commitment> {
        self.observed@
    }

    /// The challenger that the transcript holds.
    pub closed spec fn challenger(&self) -> Challenger {
        self.challenger
    }

    /// Wraps a challenger; nothing has been observed through it yet.
    pub fn new(challenger: Challenger) -> (t: Transcript)
        ensures
            t.observed() == Seq::<Commitment>::empty(),
            t.challenger() == challenger,
    {
        Transcript { challenger, observed: Ghost(Seq::empty()) }
    }

    /// Gives the challenger back.
    pub fn into_challenger(self) -> (c: Challenger)
        ensures
            c == self.challenger(),
    {
        self.challenger
    }

    /// Absorbs a commitment into the challenger.
    pub fn observe(&mut self, commitment: &Commitment)
        ensures
            final(self).challenger() == observed_challenger(old(self).challenger(), *commitment),
            final(self).observed() == old(self).observed().push(*commitment),
    {
        observe_commitment(&mut self.challenger, commitment);
        self.observed = Ghost(self.observed@.push(*commitment));
    }
}

} // verus!
