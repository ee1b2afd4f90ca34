//! The deposit and withdraw protocols over the mixer ledger.
use vstd::prelude::*;
use crate::state::{AccountHandle, MixerState};
use crate::utils::{
    commitment_of, hash_commitment, proof_digest, proof_well_formed, verify_merkle_proof,
};

verus! {

/// Why a deposit or a withdrawal was refused.
#[derive(Clone, Copy, Debug, PartialEq, Eq, Structural)]
pub enum ErrorCode {
    /// The nullifier was spent before.
    NullifierAlreadySpent,
    /// The proof does not lead from the nullifier to the current root.
    InvalidMerkleProof,
    /// The proof is not a whole number of 32-byte siblings.
    MalformedProof,
    /// The payer could not move the deposit to the ledger's balance.
    TransferFailed,
    /// The ledger has no room for another commitment.
    LedgerFull,
}

/// The accounts a deposit works on.
pub struct Deposit {
    /// The party that pays the deposit.
    pub payer: AccountHandle,
    /// The balance that the ledger controls.
    pub vault: AccountHandle,
    /// The ledger that records the commitment.
    pub mixer_account: MixerState,
}

/// The accounts a withdrawal works on.
pub struct Withdraw {
    /// The ledger that records the nullifier.
    pub mixer_account: MixerState,
}

/// Whether `amount` can move from a balance of `from` to a balance of `to`.
pub open spec fn transfer_possible(from: u64, to: u64, amount: u64) -> bool {
    amount <= from && to + amount <= u64::MAX
}

/// What a deposit of `amount` returns on the accounts `ctx`.
pub open spec fn deposit_outcome(ctx: Deposit, amount: u64) -> Result<(), ErrorCode> {
    if !transfer_possible(ctx.payer.lamports, ctx.vault.lamports, amount) {
        Err(ErrorCode::TransferFailed)
    } else if ctx.mixer_account.full() {
        Err(ErrorCode::LedgerFull)
    } else {
        Ok(())
    }
}

/// `after` is `before` with the commitment to `(amount, secret)` appended and
/// made the root.
pub open spec fn commitment_recorded(
    before: MixerState,
    after: MixerState,
    amount: u64,
    secret: Seq<u8>,
) -> bool {
    &&& after.commitments@.len() == before.commitments@.len() + 1
    &&& after.commitments@.drop_last() == before.commitments@
    &&& after.commitments@.last()@ == commitment_of(amount, secret)
    &&& after.root == after.commitments@.last()
    &&& after.nullifiers@ == before.nullifiers@
    &&& after.capacity == before.capacity
}

/// `after` is `before` with `n` appended to the spent nullifiers.
pub open spec fn nullifier_recorded(before: MixerState, after: MixerState, n: [u8; 32]) -> bool {
    &&& after.nullifiers@ == before.nullifiers@.push(n)
    &&& after.commitments@ == before.commitments@
    &&& after.root == before.root
    &&& after.capacity == before.capacity
}

/// What a withdrawal of `n` with `proof` returns on the ledger `s`.
pub open spec fn withdraw_outcome(s: MixerState, n: [u8; 32], proof: Seq<u8>) -> Result<(), ErrorCode> {
    if s.spent(n) {
        Err(ErrorCode::NullifierAlreadySpent)
    } else if !proof_well_formed(proof) {
        Err(ErrorCode::MalformedProof)
    } else if proof_digest(n@, proof) != s.root@ {
        Err(ErrorCode::InvalidMerkleProof)
    } else {
        Ok(())
    }
}

/// Moves `amount` from the payer to the vault and records the commitment to
/// `(amount, secret)`. On failure nothing changes.
pub fn deposit(ctx: &mut Deposit, amount: u64, secret: [u8; 32]) -> (r: Result<(), ErrorCode>)
    ensures
        r == deposit_outcome(*old(ctx), amount),
        r is Err ==> *final(ctx) == *old(ctx),
        r is Ok ==> final(ctx).payer.lamports == old(ctx).payer.lamports - amount,
        r is Ok ==> final(ctx).vault.lamports == old(ctx).vault.lamports + amount,
        r is Ok ==> final(ctx).payer.key == old(ctx).payer.key,
        r is Ok ==> final(ctx).vault.key == old(ctx).vault.key,
        r is Ok ==> commitment_recorded(old(ctx).mixer_account, final(ctx).mixer_account, amount, secret@),
{
    if ctx.payer.lamports < amount || ctx.vault.lamports > u64::MAX - amount {
        return Err(ErrorCode::TransferFailed);
    }
    if ctx.mixer_account.commitments.len() >= ctx.mixer_account.capacity {
        return Err(ErrorCode::LedgerFull);
    }
    let commitment = hash_commitment(amount, secret.as_slice());
    let _ = ctx.mixer_account.add_commitment(commitment);
    ctx.payer.lamports = ctx.payer.lamports - amount;
    ctx.vault.lamports = ctx.vault.lamports + amount;
    proof {
        assert(ctx.mixer_account.commitments@.drop_last() =~= old(ctx).mixer_account.commitments@);
    }
    Ok(())
}

/// Accepts `nullifier` once, when `proof` leads from it to the current root.
/// On failure nothing changes.
pub fn withdraw(ctx: &mut Withdraw, nullifier: [u8; 32], proof: Vec<u8>) -> (r: Result<(), ErrorCode>)
    ensures
        r == withdraw_outcome(old(ctx).mixer_account, nullifier, proof@),
        r is Err ==> *final(ctx) == *old(ctx),
        r is Ok ==> nullifier_recorded(old(ctx).mixer_account, final(ctx).mixer_account, nullifier),
{
    if ctx.mixer_account.is_nullifier_spent(&nullifier) {
        return Err(ErrorCode::NullifierAlreadySpent);
    }
    if proof.len() % 32 != 0 {
        return Err(ErrorCode::MalformedProof);
    }
    if !verify_merkle_proof(&ctx.mixer_account.root, proof.as_slice(), &nullifier) {
        return Err(ErrorCode::InvalidMerkleProof);
    }
    let _ = ctx.mixer_account.mark_nullifier_spent(nullifier);
    Ok(())
}

/// After `k` successful deposits into a fresh ledger, it holds exactly `k`
/// commitments, the `j`-th being the commitment to the `j`-th deposit, and
/// the root is the last of them. `states[j]` is the ledger before deposit `j`.
pub proof fn lemma_deposit_history(states: Seq<MixerState>, deposits: Seq<(u64, Seq<u8>)>)
    requires
        states.len() == deposits.len() + 1,
        states[0].commitments@.len() == 0,
        forall|j: int|
            0 <= j < deposits.len() ==> #[trigger] commitment_recorded(
                states[j],
                states[j + 1],
                deposits[j].0,
                deposits[j].1,
            ),
    ensures
        states.last().commitments@.len() == deposits.len(),
        deposits.len() > 0 ==> states.last().root == states.last().commitments@[deposits.len() - 1],
        forall|j: int|
            0 <= j < deposits.len() ==> #[trigger] states.last().commitments@[j]@ == commitment_of(
                deposits[j].0,
                deposits[j].1,
            ),
    decreases deposits.len(),
{
    let k = deposits.len();
    if k > 0 {
        let prev_states = states.drop_last();
        let prev_deposits = deposits.drop_last();
        assert forall|j: int| 0 <= j < prev_deposits.len() implies #[trigger] commitment_recorded(
            prev_states[j],
            prev_states[j + 1],
            prev_deposits[j].0,
            prev_deposits[j].1,
        ) by {
            assert(commitment_recorded(states[j], states[j + 1], deposits[j].0, deposits[j].1));
        }
        lemma_deposit_history(prev_states, prev_deposits);
        assert(commitment_recorded(states[k - 1], states[k as int], deposits[k - 1].0, deposits[k - 1].1));
        let last = states.last();
        let prev = states[k - 1];
        assert forall|j: int| 0 <= j < k implies #[trigger] last.commitments@[j]@ == commitment_of(
            deposits[j].0,
            deposits[j].1,
        ) by {
            if j < k - 1 {
                assert(last.commitments@[j] == last.commitments@.drop_last()[j]);
                assert(prev.commitments@[j]@ == commitment_of(prev_deposits[j].0, prev_deposits[j].1));
            }
        }
    }
}

/// A withdrawal of an unspent nullifier with a proof that leads to the root
/// succeeds; once it has, every later withdrawal of the same nullifier fails
/// as already spent, whatever its proof.
pub proof fn lemma_nullifier_exactly_once(
    before: MixerState,
    after: MixerState,
    n: [u8; 32],
    proof: Seq<u8>,
    later_proof: Seq<u8>,
)
    requires
        !before.spent(n),
        proof_well_formed(proof),
        proof_digest(n@, proof) == before.root@,
        nullifier_recorded(before, after, n),
    ensures
        withdraw_outcome(before, n, proof) is Ok,
        after.spent(n),
        withdraw_outcome(after, n, later_proof) == Err::<(), ErrorCode>(ErrorCode::NullifierAlreadySpent),
{
    assert(after.nullifiers@[after.nullifiers@.len() - 1] == n);
}

/// A withdrawal of an unspent nullifier whose well-formed proof does not lead
/// to the current root fails as an invalid proof.
pub proof fn lemma_proof_rejected(s: MixerState, n: [u8; 32], proof: Seq<u8>)
    requires
        !s.spent(n),
        proof_well_formed(proof),
        proof_digest(n@, proof) != s.root@,
    ensures
        withdraw_outcome(s, n, proof) == Err::<(), ErrorCode>(ErrorCode::InvalidMerkleProof),
{
}

} // verus!
