//! Hash and commitment primitives.
use vstd::prelude::*;
use vstd::slice::slice_subrange;

verus! {

/// The SHA-256 digest of a byte string.
pub uninterp spec fn sha256_of(data: Seq<u8>) -> Seq<u8>;

/// Relies on solana_program::hash::hashv: the SHA-256 digest of the
/// concatenation of the given slices, fed to one hasher in order.
#[verifier::external_body]
fn sha256_concat(a: &[u8], b: &[u8]) -> (r: [u8; 32])
    ensures
        r@ == sha256_of(a@ + b@),
{
    solana_program::hash::hashv(&[a, b]).to_bytes()
}

/// The `n` low-order bytes of `x`, least significant first.
pub open spec fn le_bytes(x: nat, n: nat) -> Seq<u8>
    decreases n,
{
    if n == 0 {
        Seq::empty()
    } else {
        seq![(x % 256) as u8].add(le_bytes(x / 256, (n - 1) as nat))
    }
}

/// The eight-byte little-endian encoding of a 64-bit integer.
pub open spec fn u64_le(x: u64) -> Seq<u8> {
    le_bytes(x as nat, 8)
}

/// Encodes `x` as eight little-endian bytes.
pub fn u64_to_le(x: u64) -> (r: Vec<u8>)
    ensures
        r@ == u64_le(x),
{
    let mut out: Vec<u8> = Vec::new();
    let mut v: u64 = x;
    let mut k: usize = 0;
    while k < 8
        invariant
            k <= 8,
            out@ + le_bytes(v as nat, (8 - k) as nat) == le_bytes(x as nat, 8),
        decreases 8 - k,
    {
        let ghost rest = le_bytes((v / 256) as nat, (8 - k - 1) as nat);
        assert(le_bytes(v as nat, (8 - k) as nat) == seq![(v % 256) as u8].add(rest));
        out.push((v % 256) as u8);
        assert(out@ + rest == le_bytes(x as nat, 8)) by {
            assert(out@ + rest =~= (out@.drop_last() + seq![(v % 256) as u8]) + rest);
        }
        v = v / 256;
        k = k + 1;
    }
    assert(le_bytes(v as nat, 0) =~= Seq::<u8>::empty());
    assert(out@ =~= out@ + Seq::<u8>::empty());
    out
}

/// `256` raised to the power `n`.
pub open spec fn pow256(n: nat) -> nat
    decreases n,
{
    if n == 0 {
        1
    } else {
        256 * pow256((n - 1) as nat)
    }
}

/// An encoding of `n` bytes has length `n`.
pub proof fn lemma_le_bytes_len(x: nat, n: nat)
    ensures
        le_bytes(x, n).len() == n,
    decreases n,
{
    if n > 0 {
        lemma_le_bytes_len(x / 256, (n - 1) as nat);
    }
}

/// Two values below `256^n` with the same `n`-byte encoding are equal.
pub proof fn lemma_le_bytes_injective(x: nat, y: nat, n: nat)
    requires
        x < pow256(n),
        y < pow256(n),
        le_bytes(x, n) == le_bytes(y, n),
    ensures
        x == y,
    decreases n,
{
    if n > 0 {
        let m = (n - 1) as nat;
        let p = pow256(m);
        assert(le_bytes(x, n)[0] == (x % 256) as u8);
        assert(le_bytes(y, n)[0] == (y % 256) as u8);
        assert(le_bytes(x / 256, m) =~= le_bytes(x, n).skip(1));
        assert(le_bytes(y / 256, m) =~= le_bytes(y, n).skip(1));
        assert(x / 256 < p) by (nonlinear_arith)
            requires
                x < 256 * p,
        ;
        assert(y / 256 < p) by (nonlinear_arith)
            requires
                y < 256 * p,
        ;
        lemma_le_bytes_injective(x / 256, y / 256, m);
    }
}

/// The eight-byte encoding of a 64-bit integer is eight bytes long and
/// tells integers apart.
pub proof fn lemma_u64_le(x: u64, y: u64)
    ensures
        u64_le(x).len() == 8,
        u64_le(x) == u64_le(y) ==> x == y,
{
    lemma_le_bytes_len(x as nat, 8);
    reveal_with_fuel(pow256, 9);
    assert(pow256(8) == 0x1_0000_0000_0000_0000);
    if u64_le(x) == u64_le(y) {
        lemma_le_bytes_injective(x as nat, y as nat, 8);
    }
}

/// The bytes that a commitment digests: the amount, little-endian, then the secret.
pub open spec fn commitment_preimage(amount: u64, secret: Seq<u8>) -> Seq<u8> {
    u64_le(amount) + secret
}

/// The commitment to a deposit of `amount` under `secret`.
pub open spec fn commitment_of(amount: u64, secret: Seq<u8>) -> Seq<u8> {
    sha256_of(commitment_preimage(amount, secret))
}

/// A commitment is a function of the amount and the secret alone, and two
/// distinct pairs never digest the same bytes: a collision between their
/// commitments can only be a collision of the hash itself.
pub proof fn lemma_commitment_determined(a1: u64, s1: Seq<u8>, a2: u64, s2: Seq<u8>)
    ensures
        a1 == a2 && s1 == s2 ==> commitment_of(a1, s1) == commitment_of(a2, s2),
        a1 != a2 || s1 != s2 ==> commitment_preimage(a1, s1) != commitment_preimage(a2, s2),
{
    lemma_u64_le(a1, a2);
    lemma_u64_le(a2, a1);
    let pre_a = commitment_preimage(a1, s1);
    let pre_b = commitment_preimage(a2, s2);
    if pre_a == pre_b {
        assert(pre_a.subrange(0, 8) =~= u64_le(a1));
        assert(pre_b.subrange(0, 8) =~= u64_le(a2));
        assert(pre_a.skip(8) =~= s1);
        assert(pre_b.skip(8) =~= s2);
    }
}

/// Computes the commitment `H(amount_le_bytes || secret)`.
pub fn hash_commitment(amount: u64, secret: &[u8]) -> (r: [u8; 32])
    ensures
        r@ == commitment_of(amount, secret@),
{
    let amount_bytes = u64_to_le(amount);
    sha256_concat(amount_bytes.as_slice(), secret)
}

/// The number of 32-byte sibling hashes in a proof of `len` bytes.
pub open spec fn proof_steps(len: nat) -> nat {
    len / 32
}

/// The running digest after folding the first `k` siblings of `proof` into
/// the hash of `leaf`: `h0 = H(leaf)`, `h(i+1) = H(h(i) || s(i))`.
pub open spec fn chain_digest(leaf: Seq<u8>, proof: Seq<u8>, k: nat) -> Seq<u8>
    decreases k,
{
    if k == 0 {
        sha256_of(leaf)
    } else {
        let prev = chain_digest(leaf, proof, (k - 1) as nat);
        sha256_of(prev + proof.subrange(32 * (k - 1), 32 * k as int))
    }
}

/// The digest that a whole proof leads to from `leaf`.
pub open spec fn proof_digest(leaf: Seq<u8>, proof: Seq<u8>) -> Seq<u8> {
    chain_digest(leaf, proof, proof_steps(proof.len()))
}

/// A proof is well formed when it is a whole number of 32-byte siblings.
pub open spec fn proof_well_formed(proof: Seq<u8>) -> bool {
    proof.len() % 32 == 0
}

/// Folds the siblings of `proof` into the hash of `leaf`.
pub fn chain_hash(leaf: &[u8; 32], proof: &[u8]) -> (r: [u8; 32])
    requires
        proof_well_formed(proof@),
    ensures
        r@ == proof_digest(leaf@, proof@),
{
    let no_bytes: Vec<u8> = Vec::new();
    let mut current = sha256_concat(leaf.as_slice(), no_bytes.as_slice());
    assert(leaf@ + no_bytes@ =~= leaf@);
    let len: usize = proof.len();
    let steps: usize = len / 32;
    let mut k: usize = 0;
    assert(steps * 32 <= proof@.len()) by (nonlinear_arith)
        requires
            steps == proof@.len() / 32,
    ;
    while k < steps
        invariant
            k <= steps,
            steps == proof_steps(proof@.len() as nat),
            steps * 32 <= proof@.len(),
            len == proof@.len(),
            current@ == chain_digest(leaf@, proof@, k as nat),
        decreases steps - k,
    {
        assert(k * 32 + 32 <= steps * 32) by (nonlinear_arith)
            requires
                k < steps,
        ;
        let start: usize = k * 32;
        let sibling = slice_subrange(proof, start, start + 32);
        current = sha256_concat(current.as_slice(), sibling);
        k = k + 1;
    }
    current
}

/// Tells whether two 32-byte values are equal.
pub fn bytes32_eq(a: &[u8; 32], b: &[u8; 32]) -> (r: bool)
    ensures
        r == (a@ == b@),
{
    let mut i: usize = 0;
    while i < 32
        invariant
            i <= 32,
            a@.len() == 32,
            b@.len() == 32,
            forall|j: int| 0 <= j < i ==> a@[j] == b@[j],
        decreases 32 - i,
    {
        if a[i] != b[i] {
            return false;
        }
        i = i + 1;
    }
    assert(a@ =~= b@);
    true
}

/// Checks a chained sibling-hash proof for `nullifier` against `root`.
pub fn verify_merkle_proof(root: &[u8; 32], proof: &[u8], nullifier: &[u8; 32]) -> (r: bool)
    requires
        proof_well_formed(proof@),
    ensures
        r == (proof_digest(nullifier@, proof@) == root@),
{
    let digest = chain_hash(nullifier, proof);
    bytes32_eq(&digest, root)
}

} // verus!
