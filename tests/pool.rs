use pair::{get_amount_out, integer_sqrt, Pair, PairErrors, Phase, ShareLedger, BURN_ADDRESS};

const TOKEN_ONE: u64 = 10;
const TOKEN_TWO: u64 = 20;
const POOL: u64 = 99;
const ALICE: u64 = 5;
const BOB: u64 = 7;

fn seeded_pool() -> Pair {
    let mut p = Pair::new(TOKEN_ONE, TOKEN_TWO, 25, POOL);
    let m = p.mint(ALICE, ALICE, 1_000_000, 4_000_000, 1).unwrap();
    assert_eq!(m.liquidity, 1_999_000);
    p
}

#[test]
fn first_deposit_locks_minimum() {
    let p = seeded_pool();
    assert_eq!(p.total_supply(), 2_000_000);
    assert_eq!(p.balance_of(ALICE), 1_999_000);
    assert_eq!(p.balance_of(BURN_ADDRESS), 1000);
    assert_eq!(p.get_reserves(), Ok((1_000_000, 4_000_000, 1)));
}

#[test]
fn first_deposit_supply_is_root_of_product() {
    let mut p = Pair::new(TOKEN_ONE, TOKEN_TWO, 25, POOL);
    p.mint(ALICE, BOB, 3_000, 5_000, 2).unwrap();
    // floor(sqrt(15_000_000)) = 3872
    assert_eq!(p.total_supply(), 3872);
    assert_eq!(p.balance_of(BOB), 2872);
    assert_eq!(p.balance_of(BURN_ADDRESS), 1000);
}

#[test]
fn first_deposit_too_small_mints_nothing() {
    let mut p = Pair::new(TOKEN_ONE, TOKEN_TWO, 25, POOL);
    assert_eq!(p.mint(ALICE, ALICE, 1000, 1000, 1), Err(PairErrors::ZeroLPMinted));
    assert_eq!(p.total_supply(), 0);
    assert_eq!(p.get_reserves(), Ok((0, 0, 0)));
}

#[test]
fn first_deposit_product_overflow() {
    let mut p = Pair::new(TOKEN_ONE, TOKEN_TWO, 25, POOL);
    assert_eq!(p.mint(ALICE, ALICE, u128::MAX, 2, 1), Err(PairErrors::Overflow));
}

#[test]
fn later_deposit_takes_smaller_ratio() {
    let mut p = seeded_pool();
    let m = p.mint(BOB, BOB, 1_100_000, 4_500_000, 2).unwrap();
    assert_eq!(m.token_one_amount, 100_000);
    assert_eq!(m.token_two_amount, 500_000);
    assert_eq!(m.liquidity, 200_000);
    assert_eq!(p.balance_of(BOB), 200_000);
    assert_eq!(p.total_supply(), 2_200_000);
    assert_eq!(p.get_reserves(), Ok((1_100_000, 4_500_000, 2)));
}

#[test]
fn deposit_below_reserve_is_refused() {
    let mut p = seeded_pool();
    assert_eq!(p.mint(BOB, BOB, 999_999, 4_000_000, 2), Err(PairErrors::InsufficientTokenOneBalance));
    assert_eq!(p.mint(BOB, BOB, 1_000_000, 3_999_999, 2), Err(PairErrors::InsufficientTokenTwoBalance));
    assert_eq!(p.mint(BOB, BOB, 1_000_000, 4_000_000, 2), Err(PairErrors::ZeroLPMinted));
    assert_eq!(p.total_supply(), 2_000_000);
}

#[test]
fn withdraw_is_proportional() {
    let mut p = seeded_pool();
    p.transfer(ALICE, POOL, 999_000).unwrap();
    let b = p.burn(ALICE, BOB, 1_000_000, 4_000_000).unwrap();
    assert_eq!(b.token_one_amount, 499_500);
    assert_eq!(b.token_two_amount, 1_998_000);
    assert_eq!(b.liquidity, 999_000);
    assert_eq!(b.receiver, BOB);
    assert_eq!(p.total_supply(), 1_001_000);
    assert_eq!(p.balance_of(POOL), 0);
    assert_eq!(p.phase(), Phase::Withdrawing);
    // reserves stay until the payout is settled
    assert_eq!(p.get_reserves(), Ok((1_000_000, 4_000_000, 1)));
    p.finish_burn(500_500, 2_002_000, 3);
    assert_eq!(p.get_reserves(), Ok((500_500, 2_002_000, 3)));
    assert_eq!(p.phase(), Phase::Idle);
}

#[test]
fn withdraw_rounds_down() {
    let mut p = seeded_pool();
    p.transfer(ALICE, POOL, 3).unwrap();
    let b = p.burn(ALICE, BOB, 1_000_001, 4_000_003).unwrap();
    // 3 * 1_000_001 / 2_000_000 and 3 * 4_000_003 / 2_000_000, floored
    assert_eq!(b.token_one_amount, 1);
    assert_eq!(b.token_two_amount, 6);
}

#[test]
fn withdraw_with_no_shares_fails() {
    let mut p = seeded_pool();
    assert_eq!(p.burn(ALICE, BOB, 1_000_000, 4_000_000), Err(PairErrors::ZeroLPMinted));
    assert_eq!(p.total_supply(), 2_000_000);
    assert_eq!(p.balance_of(ALICE), 1_999_000);
    assert_eq!(p.get_reserves(), Ok((1_000_000, 4_000_000, 1)));
    assert_eq!(p.phase(), Phase::Idle);
}

#[test]
fn swap_at_quote_settles() {
    let mut p = seeded_pool();
    let out = get_amount_out(1000, 1_000_000, 4_000_000, 25).unwrap();
    assert_eq!(out, 3986);
    p.begin_swap(0, out).unwrap();
    let s = p.finish_swap(ALICE, BOB, 1_001_000, 4_000_000 - out, 5).unwrap();
    assert_eq!(s.amount_token_one_in, 1000);
    assert_eq!(s.amount_token_two_in, 0);
    assert_eq!(s.amount_token_one_out, 0);
    assert_eq!(s.amount_token_two_out, 3986);
    assert_eq!(s.receiver, BOB);
    assert_eq!(p.get_reserves(), Ok((1_001_000, 3_996_014, 5)));
    assert_eq!(p.phase(), Phase::Idle);
}

#[test]
fn swap_above_quote_is_refused() {
    let mut p = seeded_pool();
    p.begin_swap(0, 3987).unwrap();
    assert_eq!(p.finish_swap(ALICE, BOB, 1_001_000, 4_000_000 - 3987, 5), Err(PairErrors::SlippageTolerance));
    assert_eq!(p.get_reserves(), Ok((1_000_000, 4_000_000, 1)));
    assert_eq!(p.phase(), Phase::Idle);
}

#[test]
fn swap_beyond_reserve_is_refused() {
    let mut p = seeded_pool();
    assert_eq!(p.begin_swap(0, 4_000_001), Err(PairErrors::PoolOutOfTokenTwo));
    assert_eq!(p.begin_swap(0, 4_000_000), Err(PairErrors::PoolOutOfTokenTwo));
    assert_eq!(p.begin_swap(1_000_000, 0), Err(PairErrors::PoolOutOfTokenOne));
    assert_eq!(p.begin_swap(0, 0), Err(PairErrors::PoolOutOfTokenOne));
    assert_eq!(p.phase(), Phase::Idle);
    assert_eq!(p.get_reserves(), Ok((1_000_000, 4_000_000, 1)));
}

#[test]
fn pool_is_locked_during_swap() {
    let mut p = seeded_pool();
    p.begin_swap(10, 0).unwrap();
    assert_eq!(p.mint(BOB, BOB, 2_000_000, 8_000_000, 2), Err(PairErrors::Locked));
    assert_eq!(p.burn(BOB, BOB, 1_000_000, 4_000_000), Err(PairErrors::Locked));
    assert_eq!(p.begin_swap(10, 0), Err(PairErrors::Locked));
    assert_eq!(p.sync(1, 1, 2), Err(PairErrors::Locked));
    // asset two flowed in, asset one flowed out
    let s = p.finish_swap(BOB, BOB, 999_990, 4_000_100, 2).unwrap();
    assert_eq!(s.amount_token_two_in, 100);
    assert_eq!(s.amount_token_one_out, 10);
    assert_eq!(p.phase(), Phase::Idle);
}

#[test]
fn swap_product_never_falls() {
    let mut p = seeded_pool();
    let (mut r1, mut r2, _) = p.get_reserves().unwrap();
    let mut taken: u128 = 0;
    for i in 0..100u128 {
        let out = get_amount_out(1, r1, r2, 25).unwrap();
        p.begin_swap(0, out).unwrap();
        p.finish_swap(ALICE, ALICE, r1 + 1, r2 - out, 2 + i).unwrap();
        let (n1, n2, _) = p.get_reserves().unwrap();
        assert!(n1 * n2 >= r1 * r2);
        r1 = n1;
        r2 = n2;
        taken += out;
    }
    // a hundred swaps of one unit pay no more than one swap of a hundred
    assert_eq!(taken, 300);
    assert!(taken <= get_amount_out(100, 1_000_000, 4_000_000, 25).unwrap());
}

#[test]
fn sync_overwrites_reserves() {
    let mut p = seeded_pool();
    let s = p.sync(1_000_500, 4_000_000, 9).unwrap();
    assert_eq!(s.token_one_reserve, 1_000_500);
    assert_eq!(p.get_reserves(), Ok((1_000_500, 4_000_000, 9)));
    // the time of update never goes back
    p.sync(1_000_500, 4_000_000, 4).unwrap();
    assert_eq!(p.get_reserves(), Ok((1_000_500, 4_000_000, 9)));
}

#[test]
fn quote_formula() {
    assert_eq!(get_amount_out(1000, 1_000_000, 4_000_000, 25), Some(3986));
    assert_eq!(get_amount_out(1, 1_000_000, 4_000_000, 25), Some(3));
    assert_eq!(get_amount_out(1000, 1_000_000, 4_000_000, 0), Some(3996));
    assert_eq!(get_amount_out(0, 0, 4_000_000, 25), Some(0));
    assert_eq!(get_amount_out(u128::MAX, 1, 1, 25), None);
}

#[test]
fn square_root() {
    assert_eq!(integer_sqrt(0), 0);
    assert_eq!(integer_sqrt(1), 1);
    assert_eq!(integer_sqrt(15), 3);
    assert_eq!(integer_sqrt(16), 4);
    assert_eq!(integer_sqrt(4_000_000_000_000), 2_000_000);
    assert_eq!(integer_sqrt(u128::MAX), u64::MAX as u128);
}

#[test]
fn share_transfers_and_allowances() {
    let mut p = seeded_pool();
    assert_eq!(p.transfer(BOB, ALICE, 1), Err(PairErrors::InsufficientLPBalance));
    p.approve(ALICE, BOB, 500);
    assert_eq!(p.allowance(ALICE, BOB), 500);
    assert_eq!(p.transfer_from(BOB, ALICE, BOB, 501), Err(PairErrors::InsufficientLPAllowance));
    p.transfer_from(BOB, ALICE, BOB, 300).unwrap();
    assert_eq!(p.allowance(ALICE, BOB), 200);
    assert_eq!(p.balance_of(BOB), 300);
    assert_eq!(p.balance_of(ALICE), 1_998_700);
    assert_eq!(p.total_supply(), 2_000_000);
    p.approve(BOB, ALICE, 1000);
    assert_eq!(p.transfer_from(ALICE, BOB, ALICE, 400), Err(PairErrors::InsufficientLPBalance));
}

#[test]
fn ledger_supply_is_sum_of_balances() {
    let mut l = ShareLedger::new();
    l.issue(1, 10).unwrap();
    l.issue(2, 20).unwrap();
    l.move_shares(2, 3, 5).unwrap();
    l.redeem(1, 4).unwrap();
    assert_eq!(l.redeem(1, 7), Err(PairErrors::InsufficientLPBalance));
    assert_eq!(l.balance_of(1) + l.balance_of(2) + l.balance_of(3), l.total_supply());
    assert_eq!(l.total_supply(), 26);
    assert_eq!(l.issue(1, u128::MAX), Err(PairErrors::Overflow));
    l.approve(1, 2, 9);
    l.spend_allowance(1, 2, 4).unwrap();
    assert_eq!(l.allowance_of(1, 2), 5);
    assert_eq!(l.spend_allowance(1, 2, 6), Err(PairErrors::InsufficientLPAllowance));
}

#[test]
fn new_pool_is_empty() {
    let p = Pair::new(TOKEN_ONE, TOKEN_TWO, 25, POOL);
    assert_eq!(p.total_supply(), 0);
    assert_eq!(p.balance_of(ALICE), 0);
    assert_eq!(p.allowance(ALICE, BOB), 0);
    assert_eq!(p.get_reserves(), Ok((0, 0, 0)));
    assert_eq!(p.phase(), Phase::Idle);
    assert_eq!(p.token_ids(), (TOKEN_ONE, TOKEN_TWO));
    assert_eq!(p.account_id(), POOL);
}

#[test]
fn withdraw_and_deposit_keep_allowances() {
    let mut p = seeded_pool();
    p.approve(ALICE, BOB, 77);
    p.transfer(ALICE, POOL, 1000).unwrap();
    p.burn(ALICE, ALICE, 1_000_000, 4_000_000).unwrap();
    p.finish_burn(999_500, 3_998_000, 2);
    assert_eq!(p.allowance(ALICE, BOB), 77);
    p.mint(ALICE, ALICE, 1_000_000, 4_000_000, 3).unwrap();
    assert_eq!(p.allowance(ALICE, BOB), 77);
}
