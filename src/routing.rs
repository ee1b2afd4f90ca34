//! Batch routing of value through derived single-use intermediate accounts.
use vstd::prelude::*;
use vstd::slice::slice_to_vec;
use crate::state::AccountHandle;
use crate::utils::{bytes32_eq, lemma_u64_le, u64_le, u64_to_le};

verus! {

/// The program-derived address and bump seed for `seeds` under `program_id`,
/// if one exists.
pub uninterp spec fn program_address_of(seeds: Seq<Seq<u8>>, program_id: Seq<u8>) -> Option<(Seq<u8>, u8)>;

/// The view of a derived address and its bump seed.
pub open spec fn derived_view(r: Option<([u8; 32], u8)>) -> Option<(Seq<u8>, u8)> {
    match r {
        Some(p) => Some((p.0@, p.1)),
        None => None,
    }
}

/// Relies on solana_program::pubkey::Pubkey::try_find_program_address: the
/// first address off the curve among the bump seeds tried, with its bump,
/// as a function of the seeds and the program id alone; `None` where no bump
/// seed gives one or the seeds are too many or too long.
#[verifier::external_body]
fn find_program_address(seeds: &Vec<Vec<u8>>, program_id: &[u8; 32]) -> (r: Option<([u8; 32], u8)>)
    ensures
        derived_view(r) == program_address_of(seeds@.map_values(|s: Vec<u8>| s@), program_id@),
{
    let parts: Vec<&[u8]> = seeds.iter().map(|s| s.as_slice()).collect();
    let program = solana_program::pubkey::Pubkey::new_from_array(*program_id);
    solana_program::pubkey::Pubkey::try_find_program_address(&parts, &program)
        .map(|(address, bump)| (address.to_bytes(), bump))
}

/// The domain tag of intermediate accounts: the bytes of "intermediate".
pub open spec fn intermediate_tag() -> Seq<u8> {
    seq![105u8, 110u8, 116u8, 101u8, 114u8, 109u8, 101u8, 100u8, 105u8, 97u8, 116u8, 101u8]
}

fn intermediate_tag_bytes() -> (r: Vec<u8>)
    ensures
        r@ == intermediate_tag(),
{
    let mut tag: Vec<u8> = Vec::new();
    tag.push(105u8);
    tag.push(110u8);
    tag.push(116u8);
    tag.push(101u8);
    tag.push(114u8);
    tag.push(109u8);
    tag.push(101u8);
    tag.push(100u8);
    tag.push(105u8);
    tag.push(97u8);
    tag.push(116u8);
    tag.push(101u8);
    assert(tag@ =~= intermediate_tag());
    tag
}

/// The seeds of the intermediate account at position `index` of a batch
/// that `party` routes under `nonce`.
pub open spec fn intermediate_seeds(party: Seq<u8>, nonce: u64, index: u64) -> Seq<Seq<u8>> {
    seq![intermediate_tag(), party, u64_le(nonce), u64_le(index)]
}

/// The address of that intermediate account, if one can be derived.
pub open spec fn intermediate_address(
    party: Seq<u8>,
    program_id: Seq<u8>,
    nonce: u64,
    index: u64,
) -> Option<Seq<u8>> {
    match program_address_of(intermediate_seeds(party, nonce, index), program_id) {
        Some(p) => Some(p.0),
        None => None,
    }
}

/// Derives the intermediate account for position `index` together with its
/// bump seed, the capability to sign for it.
pub fn derive_intermediate(
    party: &[u8; 32],
    program_id: &[u8; 32],
    nonce: u64,
    index: u64,
) -> (r: Option<([u8; 32], u8)>)
    ensures
        derived_view(r) == program_address_of(intermediate_seeds(party@, nonce, index), program_id@),
{
    let mut seeds: Vec<Vec<u8>> = Vec::new();
    seeds.push(intermediate_tag_bytes());
    seeds.push(slice_to_vec(party.as_slice()));
    seeds.push(u64_to_le(nonce));
    seeds.push(u64_to_le(index));
    assert(seeds@.map_values(|s: Vec<u8>| s@) =~= intermediate_seeds(party@, nonce, index));
    find_program_address(&seeds, program_id)
}

/// Derivation is a function of the party, the program, the nonce and the
/// position alone, and distinct (party, nonce, position) triples derive from
/// distinct seeds; in particular two positions of one batch never share them.
pub proof fn lemma_intermediate_derivation(
    program_id: Seq<u8>,
    party_a: Seq<u8>,
    n1: u64,
    i1: u64,
    party_b: Seq<u8>,
    n2: u64,
    i2: u64,
)
    ensures
        party_a == party_b && n1 == n2 && i1 == i2 ==> intermediate_address(party_a, program_id, n1, i1)
            == intermediate_address(party_b, program_id, n2, i2),
        party_a != party_b || n1 != n2 || i1 != i2 ==> intermediate_seeds(party_a, n1, i1) != intermediate_seeds(
            party_b,
            n2,
            i2,
        ),
{
    lemma_u64_le(n1, n2);
    lemma_u64_le(i1, i2);
    let s1 = intermediate_seeds(party_a, n1, i1);
    let s2 = intermediate_seeds(party_b, n2, i2);
    if s1 == s2 {
        assert(s1[1] == s2[1]);
        assert(s1[2] == s2[2]);
        assert(s1[3] == s2[3]);
    }
}

/// One item of a batch: where value goes, and how much.
#[derive(Clone, Copy, Debug)]
pub struct OutputDetail {
    pub address: [u8; 32],
    pub amount: u64,
}

/// The accounts a routing call works on.
pub struct Mix {
    /// The initiating party, which pays for new intermediate accounts.
    pub user: AccountHandle,
    /// The program under which intermediate addresses are derived.
    pub program_id: [u8; 32],
    /// The rent-exempt minimum of a new intermediate account.
    pub rent_exempt_minimum: u64,
    /// The intermediate accounts, then the destination accounts.
    pub remaining_accounts: Vec<AccountHandle>,
}

/// Why a routing call was refused.
#[derive(Clone, Copy, Debug, PartialEq, Eq, Structural)]
pub enum ErrorCode {
    /// The number of supplied accounts is not twice the number of items.
    InvalidRemainingAccounts,
    /// A supplied intermediate account is not the derived one.
    InvalidIntermediateAccount,
    /// A checked addition overflowed.
    MathError,
    /// An intermediate account holds less than its item's amount.
    InsufficientFunds,
    /// The initiating party cannot fund a new intermediate account.
    AccountCreationFailed,
}

/// What routing one item does to the party, its intermediate account and its
/// destination, given the derived address.
pub open spec fn route_outcome(
    user: AccountHandle,
    inter: AccountHandle,
    dest: AccountHandle,
    amount: u64,
    derived: Option<Seq<u8>>,
    rent: u64,
) -> Result<(AccountHandle, AccountHandle, AccountHandle), ErrorCode> {
    let create = inter.lamports == 0;
    if derived != Some(inter.key@) {
        Err(ErrorCode::InvalidIntermediateAccount)
    } else if create && rent + amount > u64::MAX {
        Err(ErrorCode::MathError)
    } else if create && user.lamports < rent + amount {
        Err(ErrorCode::AccountCreationFailed)
    } else {
        let funded: int = if create { rent + amount } else { inter.lamports as int };
        let paid: int = if create { rent + amount } else { 0 };
        if funded < amount {
            Err(ErrorCode::InsufficientFunds)
        } else if dest.lamports + amount > u64::MAX {
            Err(ErrorCode::MathError)
        } else {
            Ok((
                AccountHandle { key: user.key, lamports: (user.lamports - paid) as u64 },
                AccountHandle { key: inter.key, lamports: (funded - amount) as u64 },
                AccountHandle { key: dest.key, lamports: (dest.lamports + amount) as u64 },
            ))
        }
    }
}

/// The view of a derived address without its bump seed.
pub open spec fn address_view(a: Option<[u8; 32]>) -> Option<Seq<u8>> {
    match a {
        Some(k) => Some(k@),
        None => None,
    }
}

/// Routes one item: checks the intermediate account against the derived
/// address, creates and funds it from `user` when it is empty, then moves
/// `amount` from it to `dest`. On failure nothing changes.
pub fn route_item(
    user: &mut AccountHandle,
    inter: &mut AccountHandle,
    dest: &mut AccountHandle,
    amount: u64,
    derived: Option<[u8; 32]>,
    rent: u64,
) -> (r: Result<(), ErrorCode>)
    ensures
        route_outcome(*old(user), *old(inter), *old(dest), amount, address_view(derived), rent) matches Err(e)
            ==> r == Err::<(), ErrorCode>(e) && *final(user) == *old(user) && *final(inter) == *old(inter)
            && *final(dest) == *old(dest),
        route_outcome(*old(user), *old(inter), *old(dest), amount, address_view(derived), rent) matches Ok(
            t,
        ) ==> r is Ok && *final(user) == t.0 && *final(inter) == t.1 && *final(dest) == t.2,
{
    match derived {
        None => {
            return Err(ErrorCode::InvalidIntermediateAccount);
        },
        Some(address) => {
            if !bytes32_eq(&address, &inter.key) {
                return Err(ErrorCode::InvalidIntermediateAccount);
            }
            proof {
                assert(address == inter.key);
            }
        },
    }
    let mut funded: u64 = inter.lamports;
    let mut paid: u64 = 0;
    if inter.lamports == 0 {
        if rent > u64::MAX - amount {
            return Err(ErrorCode::MathError);
        }
        let required: u64 = rent + amount;
        if user.lamports < required {
            return Err(ErrorCode::AccountCreationFailed);
        }
        funded = required;
        paid = required;
    }
    if funded < amount {
        return Err(ErrorCode::InsufficientFunds);
    }
    if dest.lamports > u64::MAX - amount {
        return Err(ErrorCode::MathError);
    }
    user.lamports = user.lamports - paid;
    inter.lamports = funded - amount;
    dest.lamports = dest.lamports + amount;
    Ok(())
}

/// The party and the accounts after the first `k` items of `items` were
/// routed, or the first error.
pub open spec fn mix_prefix(ctx: Mix, nonce: u64, items: Seq<OutputDetail>, k: nat) -> Result<
    (AccountHandle, Seq<AccountHandle>),
    ErrorCode,
>
    decreases k,
{
    if k == 0 {
        Ok((ctx.user, ctx.remaining_accounts@))
    } else {
        match mix_prefix(ctx, nonce, items, (k - 1) as nat) {
            Err(e) => Err(e),
            Ok(st) => {
                let i = k - 1;
                let n = items.len();
                let accounts = st.1;
                let derived = intermediate_address(ctx.user.key@, ctx.program_id@, nonce, i as u64);
                match route_outcome(
                    st.0,
                    accounts[i],
                    accounts[n + i],
                    items[i].amount,
                    derived,
                    ctx.rent_exempt_minimum,
                ) {
                    Err(e) => Err(e),
                    Ok(t) => Ok((t.0, accounts.update(i, t.1).update(n + i, t.2))),
                }
            },
        }
    }
}

/// The party and the accounts after a routing call, or its error.
pub open spec fn mix_outcome(ctx: Mix, nonce: u64, items: Seq<OutputDetail>) -> Result<
    (AccountHandle, Seq<AccountHandle>),
    ErrorCode,
> {
    if ctx.remaining_accounts@.len() != 2 * items.len() {
        Err(ErrorCode::InvalidRemainingAccounts)
    } else {
        mix_prefix(ctx, nonce, items, items.len())
    }
}

proof fn lemma_error_persists(ctx: Mix, nonce: u64, items: Seq<OutputDetail>, k: nat, m: nat)
    requires
        k <= m,
        mix_prefix(ctx, nonce, items, k) is Err,
    ensures
        mix_prefix(ctx, nonce, items, m) == mix_prefix(ctx, nonce, items, k),
    decreases m,
{
    if m > k {
        lemma_error_persists(ctx, nonce, items, k, (m - 1) as nat);
    }
}

/// Routes each item of `outputs` in order through its derived intermediate
/// account to its destination. `ctx.remaining_accounts` holds the
/// intermediate accounts, then the destination accounts. The destination
/// accounts are taken as given: they are not matched against the items'
/// addresses. An intermediate account that already holds lamports is not
/// funded again. On failure nothing changes.
pub fn mix(ctx: &mut Mix, nonce: u64, outputs: Vec<OutputDetail>) -> (r: Result<(), ErrorCode>)
    ensures
        old(ctx).remaining_accounts@.len() != 2 * outputs@.len() ==> r == Err::<(), ErrorCode>(
            ErrorCode::InvalidRemainingAccounts,
        ),
        mix_outcome(*old(ctx), nonce, outputs@) matches Err(e) ==> r == Err::<(), ErrorCode>(e)
            && *final(ctx) == *old(ctx),
        mix_outcome(*old(ctx), nonce, outputs@) matches Ok(st) ==> r is Ok && final(ctx).user == st.0
            && final(ctx).remaining_accounts@ == st.1 && final(ctx).program_id == old(
            ctx,
        ).program_id && final(ctx).rent_exempt_minimum == old(ctx).rent_exempt_minimum,
{
    let count: usize = outputs.len();
    let supplied: usize = ctx.remaining_accounts.len();
    if count > usize::MAX / 2 || supplied != count * 2 {
        return Err(ErrorCode::InvalidRemainingAccounts);
    }
    let ghost start = *ctx;
    let mut user: AccountHandle = ctx.user;
    let mut accounts: Vec<AccountHandle> = Vec::new();
    let mut j: usize = 0;
    while j < ctx.remaining_accounts.len()
        invariant
            *ctx == start,
            j <= ctx.remaining_accounts@.len(),
            accounts@ == ctx.remaining_accounts@.subrange(0, j as int),
        decreases ctx.remaining_accounts@.len() - j,
    {
        accounts.push(ctx.remaining_accounts[j]);
        j = j + 1;
        assert(accounts@ =~= ctx.remaining_accounts@.subrange(0, j as int));
    }
    assert(accounts@ =~= ctx.remaining_accounts@);
    let mut i: usize = 0;
    while i < count
        invariant
            *ctx == start,
            count == outputs@.len(),
            count <= usize::MAX / 2,
            ctx.remaining_accounts@.len() == 2 * count,
            i <= count,
            accounts@.len() == 2 * count,
            mix_prefix(start, nonce, outputs@, i as nat) == Ok::<(AccountHandle, Seq<AccountHandle>), ErrorCode>((user, accounts@)),
        decreases count - i,
    {
        let derived = derive_intermediate(&ctx.user.key, &ctx.program_id, nonce, i as u64);
        let expected: Option<[u8; 32]> = match derived {
            Some(p) => Some(p.0),
            None => None,
        };
        assert(address_view(expected) == intermediate_address(start.user.key@, start.program_id@, nonce, i as u64));
        let mut inter: AccountHandle = accounts[i];
        let mut dest: AccountHandle = accounts[count + i];
        let step = route_item(&mut user, &mut inter, &mut dest, outputs[i].amount, expected, ctx.rent_exempt_minimum);
        match step {
            Err(e) => {
                proof {
                    lemma_error_persists(start, nonce, outputs@, (i + 1) as nat, count as nat);
                }
                return Err(e);
            },
            Ok(()) => {},
        }
        accounts.set(i, inter);
        accounts.set(count + i, dest);
        i = i + 1;
    }
    ctx.user = user;
    ctx.remaining_accounts = accounts;
    Ok(())
}

/// The sum of the balances of `s`.
pub open spec fn total_lamports(s: Seq<AccountHandle>) -> int
    decreases s.len(),
{
    if s.len() == 0 {
        0
    } else {
        total_lamports(s.drop_last()) + s.last().lamports
    }
}

/// What the party pays to create an intermediate account that held
/// `initial` lamports before the call.
pub open spec fn creation_funding(initial: u64, rent: u64, amount: u64) -> int {
    if initial == 0 {
        rent + amount
    } else {
        0
    }
}

/// After the first `k` items: keys and length are kept, no lamports appear or
/// vanish, the first `k` items were routed exactly and the rest are untouched.
pub open spec fn routed_upto(
    ctx: Mix,
    items: Seq<OutputDetail>,
    st: (AccountHandle, Seq<AccountHandle>),
    k: int,
) -> bool {
    let n = items.len() as int;
    let before = ctx.remaining_accounts@;
    let after = st.1;
    &&& after.len() == before.len()
    &&& st.0.key == ctx.user.key
    &&& st.0.lamports + total_lamports(after) == ctx.user.lamports + total_lamports(before)
    &&& forall|j: int| 0 <= j < after.len() ==> #[trigger] after[j].key == before[j].key
    &&& forall|i: int|
        0 <= i < k ==> #[trigger] after[n + i].lamports == before[n + i].lamports + items[i].amount
    &&& forall|i: int|
        0 <= i < k ==> #[trigger] after[i].lamports + items[i].amount == before[i].lamports
            + creation_funding(before[i].lamports, ctx.rent_exempt_minimum, items[i].amount)
    &&& forall|i: int| k <= i < n ==> #[trigger] after[i] == before[i]
    &&& forall|i: int| k <= i < n ==> #[trigger] after[n + i] == before[n + i]
}

proof fn lemma_total_update(s: Seq<AccountHandle>, j: int, v: AccountHandle)
    requires
        0 <= j < s.len(),
    ensures
        total_lamports(s.update(j, v)) == total_lamports(s) - s[j].lamports + v.lamports,
    decreases s.len(),
{
    let u = s.update(j, v);
    if j == s.len() - 1 {
        assert(u.drop_last() =~= s.drop_last());
    } else {
        assert(u.drop_last() =~= s.drop_last().update(j, v));
        lemma_total_update(s.drop_last(), j, v);
    }
}

proof fn lemma_prefix_routed(ctx: Mix, nonce: u64, items: Seq<OutputDetail>, k: nat)
    requires
        ctx.remaining_accounts@.len() == 2 * items.len(),
        k <= items.len(),
        mix_prefix(ctx, nonce, items, k) is Ok,
    ensures
        mix_prefix(ctx, nonce, items, k) matches Ok(st) ==> routed_upto(ctx, items, st, k as int),
    decreases k,
{
    if k > 0 {
        let m = (k - 1) as nat;
        lemma_prefix_routed(ctx, nonce, items, m);
        let st = mix_prefix(ctx, nonce, items, m)->Ok_0;
        let n = items.len() as int;
        let i = m as int;
        let accounts = st.1;
        let before = ctx.remaining_accounts@;
        assert(accounts[i] == before[i]);
        assert(accounts[n + i] == before[n + i]);
        let derived = intermediate_address(ctx.user.key@, ctx.program_id@, nonce, i as u64);
        let t = route_outcome(
            st.0,
            accounts[i],
            accounts[n + i],
            items[i].amount,
            derived,
            ctx.rent_exempt_minimum,
        )->Ok_0;
        let mid = accounts.update(i, t.1);
        let after = mid.update(n + i, t.2);
        lemma_total_update(accounts, i, t.1);
        lemma_total_update(mid, n + i, t.2);
        assert(routed_upto(ctx, items, (t.0, after), k as int)) by {
            assert forall|j: int| 0 <= j < after.len() implies #[trigger] after[j].key == before[j].key by {
                assert(accounts[j].key == before[j].key);
            }
            assert forall|q: int| 0 <= q < k implies #[trigger] after[n + q].lamports
                == before[n + q].lamports + items[q].amount by {
                if q < i {
                    assert(accounts[n + q].lamports == before[n + q].lamports + items[q].amount);
                }
            }
            assert forall|q: int| 0 <= q < k implies #[trigger] after[q].lamports + items[q].amount
                == before[q].lamports + creation_funding(
                before[q].lamports,
                ctx.rent_exempt_minimum,
                items[q].amount,
            ) by {
                if q < i {
                    assert(accounts[q].lamports + items[q].amount == before[q].lamports
                        + creation_funding(before[q].lamports, ctx.rent_exempt_minimum, items[q].amount));
                }
            }
            assert forall|q: int| k <= q < n implies #[trigger] after[q] == before[q] by {
                assert(accounts[q] == before[q]);
            }
            assert forall|q: int| k <= q < n implies #[trigger] after[n + q] == before[n + q] by {
                assert(accounts[n + q] == before[n + q]);
            }
        }
    }
}

/// A successful routing call moves exactly each item's amount to its
/// destination, leaves each intermediate account with what it held plus what
/// creating it cost, less the amount it forwarded, keeps every address, and
/// neither creates nor destroys lamports: what the party paid for creation
/// is what the accounts gained.
pub proof fn lemma_mix_conservation(ctx: Mix, nonce: u64, items: Seq<OutputDetail>)
    requires
        mix_outcome(ctx, nonce, items) is Ok,
    ensures
        mix_outcome(ctx, nonce, items) matches Ok(st) ==> routed_upto(ctx, items, st, items.len() as int),
{
    lemma_prefix_routed(ctx, nonce, items, items.len());
}

} // verus!
