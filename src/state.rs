//! The mixer ledger: the current root, the commitments and the spent nullifiers.
use vstd::prelude::*;
use crate::instructions::ErrorCode;
use crate::utils::bytes32_eq;

verus! {

/// A ledger-side account: its address and its balance in lamports.
#[derive(Clone, Copy, Debug)]
pub struct AccountHandle {
    pub key: [u8; 32],
    pub lamports: u64,
}

/// The authoritative record of deposits and withdrawals.
///
/// The root is a simplified stand-in for a Merkle root: it is the most
/// recently added commitment.
pub struct MixerState {
    /// The current root.
    pub root: [u8; 32],
    /// Every commitment accepted so far, oldest first.
    pub commitments: Vec<[u8; 32]>,
    /// Every nullifier spent so far, oldest first.
    pub nullifiers: Vec<[u8; 32]>,
    /// How many commitments the backing storage can hold.
    pub capacity: usize,
}

impl MixerState {
    /// The root is the most recently added commitment, once there is one.
    pub open spec fn wf(&self) -> bool {
        self.commitments@.len() > 0 ==> self.root == self.commitments@.last()
    }

    /// Whether `n` is among the spent nullifiers.
    pub open spec fn spent(&self, n: [u8; 32]) -> bool {
        self.nullifiers@.contains(n)
    }

    /// Whether the storage holds no room for another commitment.
    pub open spec fn full(&self) -> bool {
        self.commitments@.len() >= self.capacity
    }

    /// A fresh ledger with room for `capacity` commitments.
    pub fn new(capacity: usize) -> (r: MixerState)
        ensures
            r.root@ == seq![0u8; 32],
            r.commitments@.len() == 0,
            r.nullifiers@.len() == 0,
            r.capacity == capacity,
            r.wf(),
    {
        let root: [u8; 32] = [0u8; 32];
        assert(root@ =~= seq![0u8; 32]);
        MixerState { root, commitments: Vec::new(), nullifiers: Vec::new(), capacity }
    }

    /// Appends a commitment and makes it the root; fails when storage is full.
    pub fn add_commitment(&mut self, commitment: [u8; 32]) -> (r: Result<(), ErrorCode>)
        ensures
            r is Err <==> old(self).full(),
            r is Err ==> r == Err::<(), ErrorCode>(ErrorCode::LedgerFull) && *final(self) == *old(self),
            r is Ok ==> final(self).commitments@ == old(self).commitments@.push(commitment),
            r is Ok ==> final(self).root == commitment,
            r is Ok ==> final(self).wf(),
            r is Ok ==> final(self).nullifiers@ == old(self).nullifiers@,
            r is Ok ==> final(self).capacity == old(self).capacity,
    {
        if self.commitments.len() >= self.capacity {
            return Err(ErrorCode::LedgerFull);
        }
        self.commitments.push(commitment);
        self.root = commitment;
        Ok(())
    }

    /// Appends a nullifier to the spent list; does not check for duplicates.
    pub fn mark_nullifier_spent(&mut self, nullifier: [u8; 32]) -> (r: Result<(), ErrorCode>)
        ensures
            r is Ok,
            final(self).nullifiers@ == old(self).nullifiers@.push(nullifier),
            final(self).commitments@ == old(self).commitments@,
            final(self).root == old(self).root,
            final(self).capacity == old(self).capacity,
            old(self).wf() ==> final(self).wf(),
    {
        self.nullifiers.push(nullifier);
        Ok(())
    }

    /// Linear membership test over the spent nullifiers.
    pub fn is_nullifier_spent(&self, nullifier: &[u8; 32]) -> (r: bool)
        ensures
            r == self.spent(*nullifier),
    {
        let mut i: usize = 0;
        while i < self.nullifiers.len()
            invariant
                i <= self.nullifiers@.len(),
                forall|j: int| 0 <= j < i ==> self.nullifiers@[j] != *nullifier,
            decreases self.nullifiers@.len() - i,
        {
            if bytes32_eq(&self.nullifiers[i], nullifier) {
                assert(self.nullifiers@[i as int]@ == nullifier@);
                assert(self.nullifiers@[i as int] =~= *nullifier);
                return true;
            }
            i = i + 1;
        }
        false
    }
}

} // verus!
