use solana_program::rent::Rent;
use solanon::routing::{derive_intermediate, mix, route_item, ErrorCode, Mix, OutputDetail};
use solanon::state::AccountHandle;

const PROGRAM: [u8; 32] = [0xabu8; 32];
const PARTY: [u8; 32] = [0x01u8; 32];
const ADDR_A: [u8; 32] = [0x0au8; 32];
const ADDR_B: [u8; 32] = [0x0bu8; 32];

fn intermediate(nonce: u64, index: u64) -> [u8; 32] {
    derive_intermediate(&PARTY, &PROGRAM, nonce, index).expect("derivable").0
}

fn handle(key: [u8; 32], lamports: u64) -> AccountHandle {
    AccountHandle { key, lamports }
}

fn two_item_ctx(rent: u64, user: u64) -> (Mix, Vec<OutputDetail>) {
    let ctx = Mix {
        user: handle(PARTY, user),
        program_id: PROGRAM,
        rent_exempt_minimum: rent,
        remaining_accounts: vec![
            handle(intermediate(7, 0), 0),
            handle(intermediate(7, 1), 0),
            handle(ADDR_A, 1_000),
            handle(ADDR_B, 2_000),
        ],
    };
    let items = vec![
        OutputDetail { address: ADDR_A, amount: 500 },
        OutputDetail { address: ADDR_B, amount: 300 },
    ];
    (ctx, items)
}

fn total(ctx: &Mix) -> u128 {
    ctx.user.lamports as u128
        + ctx.remaining_accounts.iter().map(|a| a.lamports as u128).sum::<u128>()
}

#[test]
fn derivation_is_deterministic_and_position_scoped() {
    let a = derive_intermediate(&PARTY, &PROGRAM, 7, 0).expect("derivable");
    let b = derive_intermediate(&PARTY, &PROGRAM, 7, 0).expect("derivable");
    assert_eq!(a, b);
    assert_ne!(intermediate(7, 0), intermediate(7, 1));
    assert_ne!(intermediate(7, 0), intermediate(8, 0));
    let other = derive_intermediate(&[0x02u8; 32], &PROGRAM, 7, 0).expect("derivable");
    assert_ne!(a.0, other.0);
    assert_ne!(a.0, PARTY);
}

#[test]
fn two_item_batch_routes_exactly() {
    let rent = Rent::default().minimum_balance(8);
    let (mut ctx, items) = two_item_ctx(rent, 10_000_000);
    let before = total(&ctx);
    assert_eq!(mix(&mut ctx, 7, items), Ok(()));
    assert_eq!(ctx.remaining_accounts[2].lamports, 1_500);
    assert_eq!(ctx.remaining_accounts[3].lamports, 2_300);
    assert_eq!(ctx.remaining_accounts[0].lamports, rent);
    assert_eq!(ctx.remaining_accounts[1].lamports, rent);
    assert_eq!(ctx.user.lamports, 10_000_000 - 2 * rent - 800);
    assert_eq!(total(&ctx), before);
}

#[test]
fn funded_intermediate_is_not_refunded() {
    let (mut ctx, items) = two_item_ctx(100, 10_000);
    ctx.remaining_accounts[0].lamports = 600;
    assert_eq!(mix(&mut ctx, 7, items), Ok(()));
    assert_eq!(ctx.remaining_accounts[0].lamports, 100);
    assert_eq!(ctx.remaining_accounts[1].lamports, 100);
    assert_eq!(ctx.user.lamports, 10_000 - 400);
}

#[test]
fn wrong_account_count_is_refused() {
    let (mut ctx, items) = two_item_ctx(100, 10_000);
    ctx.remaining_accounts.pop();
    assert_eq!(mix(&mut ctx, 7, items.clone()), Err(ErrorCode::InvalidRemainingAccounts));
    assert_eq!(ctx.remaining_accounts.len(), 3);
    assert_eq!(ctx.remaining_accounts[0].lamports, 0);
    assert_eq!(ctx.user.lamports, 10_000);
    ctx.remaining_accounts.push(handle(ADDR_B, 0));
    ctx.remaining_accounts.push(handle(ADDR_B, 0));
    assert_eq!(mix(&mut ctx, 7, items), Err(ErrorCode::InvalidRemainingAccounts));
}

#[test]
fn empty_batch_with_no_accounts_succeeds() {
    let mut ctx = Mix {
        user: handle(PARTY, 5),
        program_id: PROGRAM,
        rent_exempt_minimum: 100,
        remaining_accounts: vec![],
    };
    assert_eq!(mix(&mut ctx, 7, vec![]), Ok(()));
    assert_eq!(ctx.user.lamports, 5);
    ctx.remaining_accounts.push(handle(ADDR_A, 0));
    assert_eq!(mix(&mut ctx, 7, vec![]), Err(ErrorCode::InvalidRemainingAccounts));
}

#[test]
fn wrong_intermediate_is_refused_atomically() {
    let (mut ctx, items) = two_item_ctx(100, 10_000);
    ctx.remaining_accounts[1].key = intermediate(8, 1);
    assert_eq!(mix(&mut ctx, 7, items), Err(ErrorCode::InvalidIntermediateAccount));
    // The first item was not applied either.
    assert_eq!(ctx.remaining_accounts[0].lamports, 0);
    assert_eq!(ctx.remaining_accounts[2].lamports, 1_000);
    assert_eq!(ctx.user.lamports, 10_000);
}

#[test]
fn wrong_nonce_is_refused() {
    let (mut ctx, items) = two_item_ctx(100, 10_000);
    assert_eq!(mix(&mut ctx, 8, items), Err(ErrorCode::InvalidIntermediateAccount));
}

#[test]
fn funding_overflow_is_math_error() {
    let (mut ctx, items) = two_item_ctx(u64::MAX - 100, u64::MAX);
    assert_eq!(mix(&mut ctx, 7, items), Err(ErrorCode::MathError));
    assert_eq!(ctx.user.lamports, u64::MAX);
}

#[test]
fn destination_overflow_is_math_error() {
    let (mut ctx, items) = two_item_ctx(100, 10_000);
    ctx.remaining_accounts[3].lamports = u64::MAX - 10;
    assert_eq!(mix(&mut ctx, 7, items), Err(ErrorCode::MathError));
    assert_eq!(ctx.remaining_accounts[2].lamports, 1_000);
}

#[test]
fn underfunded_intermediate_is_insufficient() {
    let (mut ctx, items) = two_item_ctx(100, 10_000);
    ctx.remaining_accounts[1].lamports = 299;
    assert_eq!(mix(&mut ctx, 7, items), Err(ErrorCode::InsufficientFunds));
    assert_eq!(ctx.remaining_accounts[1].lamports, 299);
}

#[test]
fn party_without_funds_cannot_create() {
    let (mut ctx, items) = two_item_ctx(100, 700);
    assert_eq!(mix(&mut ctx, 7, items), Err(ErrorCode::AccountCreationFailed));
    assert_eq!(ctx.user.lamports, 700);
}

#[test]
fn single_item_step() {
    let key = intermediate(1, 0);
    let mut user = handle(PARTY, 100);
    let mut inter = handle(key, 0);
    let mut dest = handle(ADDR_A, 3);
    assert_eq!(route_item(&mut user, &mut inter, &mut dest, 5, Some(key), 10), Ok(()));
    assert_eq!((user.lamports, inter.lamports, dest.lamports), (85, 10, 8));
    assert_eq!(
        route_item(&mut user, &mut inter, &mut dest, 5, None, 10),
        Err(ErrorCode::InvalidIntermediateAccount)
    );
    assert_eq!(route_item(&mut user, &mut inter, &mut dest, 5, Some(key), 10), Ok(()));
    assert_eq!((user.lamports, inter.lamports, dest.lamports), (85, 5, 13));
}
