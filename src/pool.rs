use crate::error::PairErrors;
use crate::math::{floor_sqrt, integer_sqrt, lemma_floor_div, quote, FEE_DENOMINATOR};
use crate::shares::{AccountId, Balance, ShareLedger};
use vstd::prelude::*;

verus! {

/// Shares locked for good at the first deposit.
pub const MINIMUM_LIQUIDITY: Balance = 1000;

/// The holder of the locked minimum: an account that nobody controls.
pub const BURN_ADDRESS: AccountId = 1;

/// Where the pool stands between the steps of an operation that hands assets out.
#[derive(Debug, Clone, Copy, PartialEq, Eq, Structural)]
pub enum Phase {
    /// No operation is in progress.
    Idle,
    /// A swap was accepted; the host is paying out these amounts.
    Swapping { out_one: Balance, out_two: Balance },
    /// Shares were redeemed; the host is paying out the assets.
    Withdrawing,
}

/// Liquidity was provided.
#[derive(Debug, Clone, Copy, PartialEq, Eq, Structural)]
pub struct Mint {
    pub provider: AccountId,
    pub token_one_amount: Balance,
    pub token_two_amount: Balance,
    pub liquidity: Balance,
}

/// Liquidity was withdrawn: the amounts to pay to `receiver`.
#[derive(Debug, Clone, Copy, PartialEq, Eq, Structural)]
pub struct Burn {
    pub provider: AccountId,
    pub token_one_amount: Balance,
    pub token_two_amount: Balance,
    pub receiver: AccountId,
    pub liquidity: Balance,
}

/// A swap was settled.
#[derive(Debug, Clone, Copy, PartialEq, Eq, Structural)]
pub struct Swap {
    pub trader: AccountId,
    pub amount_token_one_in: Balance,
    pub amount_token_two_in: Balance,
    pub amount_token_one_out: Balance,
    pub amount_token_two_out: Balance,
    pub receiver: AccountId,
}

/// The reserves were set to the pool's actual balances.
#[derive(Debug, Clone, Copy, PartialEq, Eq, Structural)]
pub struct Sync {
    pub token_one_reserve: Balance,
    pub token_two_reserve: Balance,
}

/// The time of update after a synchronisation at `now`: it never goes back.
pub open spec fn later(last: int, now: int) -> int {
    if now > last {
        now
    } else {
        last
    }
}

/// The shares a deposit of `b1 - r1` and `b2 - r2` earns against a supply of
/// `total`, or why the deposit is refused.
pub open spec fn mint_outcome(total: int, r1: int, r2: int, b1: int, b2: int) -> Result<
    int,
    PairErrors,
> {
    let a1 = b1 - r1;
    let a2 = b2 - r2;
    if b1 < r1 {
        Err(PairErrors::InsufficientTokenOneBalance)
    } else if b2 < r2 {
        Err(PairErrors::InsufficientTokenTwoBalance)
    } else if total == 0 {
        if a1 * a2 > u128::MAX {
            Err(PairErrors::Overflow)
        } else if floor_sqrt((a1 * a2) as nat) <= MINIMUM_LIQUIDITY {
            Err(PairErrors::ZeroLPMinted)
        } else {
            Ok(floor_sqrt((a1 * a2) as nat) - MINIMUM_LIQUIDITY)
        }
    } else if a1 * total > u128::MAX || a2 * total > u128::MAX || r1 == 0 || r2 == 0 {
        Err(PairErrors::Overflow)
    } else {
        let l1 = a1 * total / r1;
        let l2 = a2 * total / r2;
        let l = if l1 <= l2 {
            l1
        } else {
            l2
        };
        if l == 0 {
            Err(PairErrors::ZeroLPMinted)
        } else if total + l > u128::MAX {
            Err(PairErrors::Overflow)
        } else {
            Ok(l)
        }
    }
}

/// The assets that `held` shares out of `total` redeem against balances
/// `b1` and `b2`, or why the withdrawal is refused.
pub open spec fn burn_outcome(held: int, total: int, b1: int, b2: int) -> Result<
    (int, int),
    PairErrors,
> {
    if held == 0 {
        Err(PairErrors::ZeroLPMinted)
    } else if held * b1 > u128::MAX || held * b2 > u128::MAX {
        Err(PairErrors::Overflow)
    } else if held * b1 / total == 0 || held * b2 / total == 0 {
        Err(PairErrors::ZeroLPMinted)
    } else {
        Ok((held * b1 / total, held * b2 / total))
    }
}

/// What came in on one side during a swap: the balance beyond what the reserve
/// keeps after paying `out`.
pub open spec fn inbound(balance: int, reserve: int, out: int) -> int {
    if balance > reserve - out {
        balance - (reserve - out)
    } else {
        0
    }
}

/// A balance scaled by the fee denominator, less the fee on what came in.
pub open spec fn adjusted(balance: int, amount_in: int, fee: int) -> int {
    balance * FEE_DENOMINATOR - amount_in * fee
}

/// Whether a swap that paid `o1`, `o2` out of reserves `r1`, `r2` and left
/// balances `b1`, `b2` keeps the constant product after the fee.
pub open spec fn swap_outcome(r1: int, r2: int, o1: int, o2: int, b1: int, b2: int, fee: int) -> Result<
    (),
    PairErrors,
> {
    let x1 = adjusted(b1, inbound(b1, r1, o1), fee);
    let x2 = adjusted(b2, inbound(b2, r2, o2), fee);
    let k = r1 * r2 * (FEE_DENOMINATOR * FEE_DENOMINATOR);
    if b1 * FEE_DENOMINATOR > u128::MAX || b2 * FEE_DENOMINATOR > u128::MAX {
        Err(PairErrors::Overflow)
    } else if x1 * x2 > u128::MAX || r1 * r2 > u128::MAX || k > u128::MAX {
        Err(PairErrors::Overflow)
    } else if x1 * x2 < k {
        Err(PairErrors::SlippageTolerance)
    } else {
        Ok(())
    }
}

/// A two-asset pool: its reserves, its fee and the ledger of its shares.
#[derive(Clone)]
pub struct Pair {
    shares: ShareLedger,
    token_one: AccountId,
    token_two: AccountId,
    fee: Balance,
    pool_account: AccountId,
    reserve_token_one: Balance,
    reserve_token_two: Balance,
    last_update_time: Balance,
    phase: Phase,
}

impl Pair {
    pub closed spec fn ledger(&self) -> ShareLedger {
        self.shares
    }

    pub closed spec fn reserve_one(&self) -> int {
        self.reserve_token_one as int
    }

    pub closed spec fn reserve_two(&self) -> int {
        self.reserve_token_two as int
    }

    pub closed spec fn last_update(&self) -> int {
        self.last_update_time as int
    }

    pub closed spec fn fee_bps(&self) -> int {
        self.fee as int
    }

    pub closed spec fn tokens(&self) -> (AccountId, AccountId) {
        (self.token_one, self.token_two)
    }

    /// The account under which the pool holds the shares being redeemed.
    pub closed spec fn account(&self) -> AccountId {
        self.pool_account
    }

    pub closed spec fn state(&self) -> Phase {
        self.phase
    }

    pub open spec fn total(&self) -> int {
        self.ledger().total()
    }

    pub open spec fn balance(&self, a: AccountId) -> int {
        self.ledger().balance(a)
    }

    /// `other` is this pool in another phase.
    pub open spec fn same_but_phase(&self, other: Pair) -> bool {
        &&& self.ledger() == other.ledger()
        &&& self.tokens() == other.tokens()
        &&& self.fee_bps() == other.fee_bps()
        &&& self.account() == other.account()
        &&& self.reserve_one() == other.reserve_one()
        &&& self.reserve_two() == other.reserve_two()
        &&& self.last_update() == other.last_update()
    }

    /// `other` is this pool with its reserves and time of update changed.
    pub open spec fn same_but_reserves(&self, other: Pair) -> bool {
        &&& self.ledger() == other.ledger()
        &&& self.tokens() == other.tokens()
        &&& self.fee_bps() == other.fee_bps()
        &&& self.account() == other.account()
    }

    pub closed spec fn wf(&self) -> bool {
        &&& self.shares.wf()
        &&& self.token_one != self.token_two
        &&& self.fee <= FEE_DENOMINATOR
        &&& self.pool_account != BURN_ADDRESS
        &&& self.phase matches Phase::Swapping { out_one, out_two } ==> out_one
            < self.reserve_token_one && out_two < self.reserve_token_two && (out_one > 0 || out_two
            > 0)
    }

    /// What a well-formed pool guarantees of its parts: every amount fits in
    /// a `Balance`, the fee is at most the denominator, the two assets differ,
    /// and a pending swap asks for less than each reserve and for something.
    pub proof fn lemma_wf_bounds(&self)
        requires
            self.wf(),
        ensures
            self.ledger().wf(),
            0 <= self.reserve_one() <= u128::MAX,
            0 <= self.reserve_two() <= u128::MAX,
            0 <= self.last_update() <= u128::MAX,
            0 <= self.fee_bps() <= FEE_DENOMINATOR,
            0 <= self.total() <= u128::MAX,
            self.tokens().0 != self.tokens().1,
            self.account() != BURN_ADDRESS,
            self.state() matches Phase::Swapping { out_one, out_two } ==> out_one
                < self.reserve_one() && out_two < self.reserve_two() && (out_one > 0 || out_two
                > 0),
    {
        self.shares.lemma_supply_is_sum_of_balances(BURN_ADDRESS);
    }

    /// An empty pool of two distinct assets with a fee in basis points; the
    /// shares being redeemed are held under `pool_account`.
    pub fn new(token_one: AccountId, token_two: AccountId, fee: Balance, pool_account: AccountId) -> (r:
        Pair)
        requires
            token_one != token_two,
            fee <= FEE_DENOMINATOR,
            pool_account != BURN_ADDRESS,
        ensures
            r.wf(),
            r.tokens() == (token_one, token_two),
            r.fee_bps() == fee,
            r.account() == pool_account,
            r.reserve_one() == 0,
            r.reserve_two() == 0,
            r.last_update() == 0,
            r.state() == Phase::Idle,
            r.total() == 0,
            forall|a: AccountId| r.balance(a) == 0,
            forall|o: AccountId, s: AccountId| r.ledger().allowance(o, s) == 0,
    {
        Pair {
            shares: ShareLedger::new(),
            token_one,
            token_two,
            fee,
            pool_account,
            reserve_token_one: 0,
            reserve_token_two: 0,
            last_update_time: 0,
            phase: Phase::Idle,
        }
    }

    pub fn get_reserves(&self) -> (r: Result<(Balance, Balance, Balance), PairErrors>)
        ensures
            r is Ok,
            r->Ok_0.0 == self.reserve_one(),
            r->Ok_0.1 == self.reserve_two(),
            r->Ok_0.2 == self.last_update(),
    {
        Ok((self.reserve_token_one, self.reserve_token_two, self.last_update_time))
    }

    /// Overwrites the reserves with the given balances and moves the time of
    /// update forward to `now`.
    fn update(&mut self, balance_one: Balance, balance_two: Balance, now: Balance) -> (r: Sync)
        ensures
            final(self).reserve_one() == balance_one,
            final(self).reserve_two() == balance_two,
            final(self).last_update() == later(old(self).last_update(), now as int),
            final(self).shares == old(self).shares,
            final(self).token_one == old(self).token_one,
            final(self).token_two == old(self).token_two,
            final(self).fee == old(self).fee,
            final(self).pool_account == old(self).pool_account,
            final(self).phase == old(self).phase,
            r == (Sync { token_one_reserve: balance_one, token_two_reserve: balance_two }),
    {
        self.reserve_token_one = balance_one;
        self.reserve_token_two = balance_two;
        if now > self.last_update_time {
            self.last_update_time = now;
        }
        Sync { token_one_reserve: balance_one, token_two_reserve: balance_two }
    }

    /// Whatever happened before, the supply of shares is the sum of the
    /// balances of all holders, one entry per holder.
    pub proof fn lemma_supply_is_sum_of_balances(&self, a: AccountId)
        requires
            self.wf(),
        ensures
            self.total() == crate::shares::total_of(self.ledger().holders()),
            crate::shares::keys_unique(self.ledger().holders()),
            0 <= self.balance(a) <= self.total(),
    {
        self.shares.lemma_supply_is_sum_of_balances(a);
    }

    pub fn total_supply(&self) -> (r: Balance)
        ensures
            r == self.total(),
    {
        self.shares.total_supply()
    }

    /// The two assets that the pool trades.
    pub fn token_ids(&self) -> (r: (AccountId, AccountId))
        ensures
            r == self.tokens(),
    {
        (self.token_one, self.token_two)
    }

    /// The account under which the pool holds assets and the shares being redeemed.
    pub fn account_id(&self) -> (r: AccountId)
        ensures
            r == self.account(),
    {
        self.pool_account
    }

    /// Which step of an operation the pool is in.
    pub fn phase(&self) -> (r: Phase)
        ensures
            r == self.state(),
    {
        self.phase
    }

    pub fn balance_of(&self, holder: AccountId) -> (r: Balance)
        requires
            self.wf(),
        ensures
            r == self.balance(holder),
    {
        self.shares.balance_of(holder)
    }

    pub fn allowance(&self, owner: AccountId, spender: AccountId) -> (r: Balance)
        requires
            self.wf(),
        ensures
            r == self.ledger().allowance(owner, spender),
    {
        self.shares.allowance_of(owner, spender)
    }

    /// `owner` lets `spender` move up to `amount` of its shares.
    pub fn approve(&mut self, owner: AccountId, spender: AccountId, amount: Balance)
        requires
            old(self).wf(),
        ensures
            final(self).wf(),
            final(self).total() == old(self).total(),
            forall|k: AccountId|
                #![trigger final(self).balance(k)]
                final(self).balance(k) == old(self).balance(k),
            forall|o: AccountId, s: AccountId|
                #![trigger final(self).ledger().allowance(o, s)]
                final(self).ledger().allowance(o, s) == if o == owner && s == spender {
                    amount as int
                } else {
                    old(self).ledger().allowance(o, s)
                },
            final(self).reserve_one() == old(self).reserve_one(),
            final(self).reserve_two() == old(self).reserve_two(),
            final(self).state() == old(self).state(),
    {
        self.shares.approve(owner, spender, amount);
    }

    /// `from` moves `amount` of its shares to `to`.
    pub fn transfer(&mut self, from: AccountId, to: AccountId, amount: Balance) -> (r: Result<
        (),
        PairErrors,
    >)
        requires
            old(self).wf(),
        ensures
            final(self).wf(),
            r is Err <==> old(self).balance(from) < amount,
            r is Err ==> r == Err::<(), PairErrors>(PairErrors::InsufficientLPBalance) && *final(
                self) == *old(self),
            final(self).total() == old(self).total(),
            r is Ok ==> forall|k: AccountId|
                #![trigger final(self).balance(k)]
                final(self).balance(k) == old(self).balance(k) - (if k == from {
                    amount as int
                } else {
                    0
                }) + (if k == to {
                    amount as int
                } else {
                    0
                }),
            final(self).reserve_one() == old(self).reserve_one(),
            final(self).reserve_two() == old(self).reserve_two(),
            final(self).state() == old(self).state(),
    {
        self.shares.move_shares(from, to, amount)
    }

    /// `spender` moves `amount` of `owner`'s shares to `to`, within its
    /// allowance; the allowance is checked before the balance.
    pub fn transfer_from(
        &mut self,
        spender: AccountId,
        owner: AccountId,
        to: AccountId,
        amount: Balance,
    ) -> (r: Result<(), PairErrors>)
        requires
            old(self).wf(),
        ensures
            final(self).wf(),
            old(self).ledger().allowance(owner, spender) < amount ==> r == Err::<(), PairErrors>(
                PairErrors::InsufficientLPAllowance),
            old(self).ledger().allowance(owner, spender) >= amount && old(self).balance(owner)
                < amount ==> r == Err::<(), PairErrors>(PairErrors::InsufficientLPBalance),
            r is Ok <==> old(self).ledger().allowance(owner, spender) >= amount && old(
                self,
            ).balance(owner) >= amount,
            r is Err ==> *final(self) == *old(self),
            final(self).total() == old(self).total(),
            r is Ok ==> forall|k: AccountId|
                #![trigger final(self).balance(k)]
                final(self).balance(k) == old(self).balance(k) - (if k == owner {
                    amount as int
                } else {
                    0
                }) + (if k == to {
                    amount as int
                } else {
                    0
                }),
            r is Ok ==> forall|o: AccountId, s: AccountId|
                #![trigger final(self).ledger().allowance(o, s)]
                final(self).ledger().allowance(o, s) == old(self).ledger().allowance(o, s) - if o
                    == owner && s == spender {
                    amount as int
                } else {
                    0
                },
            final(self).reserve_one() == old(self).reserve_one(),
            final(self).reserve_two() == old(self).reserve_two(),
            final(self).state() == old(self).state(),
    {
        self.shares.transfer_from(spender, owner, to, amount)
    }

    /// Sets the reserves to the pool's actual balances, outside any operation.
    pub fn sync(&mut self, balance_one: Balance, balance_two: Balance, now: Balance) -> (r: Result<
        Sync,
        PairErrors,
    >)
        requires
            old(self).wf(),
        ensures
            final(self).wf(),
            old(self).state() != Phase::Idle ==> r == Err::<Sync, PairErrors>(PairErrors::Locked)
                && *final(self) == *old(self),
            old(self).state() == Phase::Idle ==> r == Ok::<Sync, PairErrors>(
                Sync { token_one_reserve: balance_one, token_two_reserve: balance_two },
            ),
            old(self).state() == Phase::Idle ==> final(self).reserve_one() == balance_one
                && final(self).reserve_two() == balance_two
                && final(self).last_update() == later(old(self).last_update(), now as int)
                && final(self).state() == Phase::Idle && old(self).same_but_reserves(*final(self)),
    {
        if self.phase != Phase::Idle {
            return Err(PairErrors::Locked);
        }
        Ok(self.update(balance_one, balance_two, now))
    }

    /// Issues shares for what was deposited since the last synchronisation:
    /// the pool now holds `balance_one` and `balance_two`. The first deposit
    /// earns the integer square root of the product of the two amounts, less
    /// `MINIMUM_LIQUIDITY`, which goes to `BURN_ADDRESS`; later ones earn the
    /// smaller of the two proportional shares of the supply; with a supply but
    /// an empty reserve that ratio has no value, and the deposit is refused as
    /// an arithmetic fault.
    pub fn mint(
        &mut self,
        caller: AccountId,
        to: AccountId,
        balance_one: Balance,
        balance_two: Balance,
        now: Balance,
    ) -> (r: Result<Mint, PairErrors>)
        requires
            old(self).wf(),
        ensures
            final(self).wf(),
            old(self).state() != Phase::Idle ==> r == Err::<Mint, PairErrors>(PairErrors::Locked),
            ({
                let outcome = mint_outcome(
                    old(self).total(),
                    old(self).reserve_one(),
                    old(self).reserve_two(),
                    balance_one as int,
                    balance_two as int,
                );
                old(self).state() == Phase::Idle ==> match r {
                    Ok(m) => outcome == Ok::<int, PairErrors>(m.liquidity as int),
                    Err(e) => outcome == Err::<int, PairErrors>(e),
                }
            }),
            r is Err ==> *final(self) == *old(self),
            forall|o: AccountId, s: AccountId|
                #![trigger final(self).ledger().allowance(o, s)]
                final(self).ledger().allowance(o, s) == old(self).ledger().allowance(o, s),
            r matches Ok(m) ==> {
                let first = old(self).total() == 0;
                &&& m == (Mint {
                    provider: caller,
                    token_one_amount: (balance_one - old(self).reserve_one()) as Balance,
                    token_two_amount: (balance_two - old(self).reserve_two()) as Balance,
                    liquidity: m.liquidity,
                })
                &&& final(self).reserve_one() == balance_one
                &&& final(self).reserve_two() == balance_two
                &&& final(self).last_update() == later(old(self).last_update(), now as int)
                &&& final(self).state() == Phase::Idle
                &&& final(self).tokens() == old(self).tokens()
                &&& final(self).fee_bps() == old(self).fee_bps()
                &&& final(self).account() == old(self).account()
                &&& final(self).total() == old(self).total() + m.liquidity + if first {
                    MINIMUM_LIQUIDITY as int
                } else {
                    0
                }
                &&& forall|k: AccountId|
                    #![trigger final(self).balance(k)]
                    final(self).balance(k) == old(self).balance(k) + (if k == to {
                        m.liquidity as int
                    } else {
                        0
                    }) + (if first && k == BURN_ADDRESS {
                        MINIMUM_LIQUIDITY as int
                    } else {
                        0
                    })
            },
            r is Ok && old(self).total() == 0 ==> final(self).total() == floor_sqrt(
                ((balance_one - old(self).reserve_one()) * (balance_two - old(self).reserve_two()))
                    as nat,
            ),
            r is Ok && old(self).total() == 0 && to != BURN_ADDRESS ==> final(self).balance(
                BURN_ADDRESS,
            ) == MINIMUM_LIQUIDITY,
    {
        if self.phase != Phase::Idle {
            return Err(PairErrors::Locked);
        }
        let reserve_one = self.reserve_token_one;
        let reserve_two = self.reserve_token_two;
        if balance_one < reserve_one {
            return Err(PairErrors::InsufficientTokenOneBalance);
        }
        if balance_two < reserve_two {
            return Err(PairErrors::InsufficientTokenTwoBalance);
        }
        let amount_one = balance_one - reserve_one;
        let amount_two = balance_two - reserve_two;
        let total = self.shares.total_supply();
        let ghost old_pair = *self;
        proof {
            self.shares.lemma_supply_is_sum_of_balances(BURN_ADDRESS);
        }
        let liquidity: Balance;
        if total == 0 {
            let product = match amount_one.checked_mul(amount_two) {
                Some(v) => v,
                None => return Err(PairErrors::Overflow),
            };
            let root = integer_sqrt(product);
            if root <= MINIMUM_LIQUIDITY {
                return Err(PairErrors::ZeroLPMinted);
            }
            liquidity = root - MINIMUM_LIQUIDITY;
            let ghost before = self.shares;
            match self.shares.issue(BURN_ADDRESS, MINIMUM_LIQUIDITY) {
                Ok(()) => {},
                Err(e) => return Err(e),
            }
            let ghost middle = self.shares;
            match self.shares.issue(to, liquidity) {
                Ok(()) => {},
                Err(e) => {
                    assert(false);
                    return Err(e);
                },
            }
            assert forall|k: AccountId| #[trigger]
                self.shares.balance(k) == before.balance(k) + (if k == to {
                    liquidity as int
                } else {
                    0
                }) + (if k == BURN_ADDRESS {
                    MINIMUM_LIQUIDITY as int
                } else {
                    0
                }) by {
                assert(middle.balance(k) == before.balance(k) + if k == BURN_ADDRESS {
                    MINIMUM_LIQUIDITY as int
                } else {
                    0
                });
            }
        } else {
            let scaled_one = match amount_one.checked_mul(total) {
                Some(v) => v,
                None => return Err(PairErrors::Overflow),
            };
            let scaled_two = match amount_two.checked_mul(total) {
                Some(v) => v,
                None => return Err(PairErrors::Overflow),
            };
            if reserve_one == 0 || reserve_two == 0 {
                return Err(PairErrors::Overflow);
            }
            let l1 = scaled_one / reserve_one;
            let l2 = scaled_two / reserve_two;
            liquidity = if l1 <= l2 {
                l1
            } else {
                l2
            };
            if liquidity == 0 {
                return Err(PairErrors::ZeroLPMinted);
            }
            match self.shares.issue(to, liquidity) {
                Ok(()) => {},
                Err(e) => return Err(e),
            }
        }
        self.update(balance_one, balance_two, now);
        Ok(
            Mint {
                provider: caller,
                token_one_amount: amount_one,
                token_two_amount: amount_two,
                liquidity,
            },
        )
    }

    /// Redeems every share that the pool holds under its own account: each
    /// asset is paid out in proportion to those shares over the supply,
    /// floored. The reserves stay until `finish_burn`, after the host has paid
    /// the amounts to `to`.
    pub fn burn(
        &mut self,
        caller: AccountId,
        to: AccountId,
        balance_one: Balance,
        balance_two: Balance,
    ) -> (r: Result<Burn, PairErrors>)
        requires
            old(self).wf(),
        ensures
            final(self).wf(),
            old(self).state() != Phase::Idle ==> r == Err::<Burn, PairErrors>(PairErrors::Locked),
            ({
                let outcome = burn_outcome(
                    old(self).balance(old(self).account()),
                    old(self).total(),
                    balance_one as int,
                    balance_two as int,
                );
                old(self).state() == Phase::Idle ==> match r {
                    Ok(b) => outcome == Ok::<(int, int), PairErrors>(
                        (b.token_one_amount as int, b.token_two_amount as int),
                    ),
                    Err(e) => outcome == Err::<(int, int), PairErrors>(e),
                }
            }),
            r is Err ==> *final(self) == *old(self),
            forall|o: AccountId, s: AccountId|
                #![trigger final(self).ledger().allowance(o, s)]
                final(self).ledger().allowance(o, s) == old(self).ledger().allowance(o, s),
            r matches Ok(b) ==> {
                let held = old(self).balance(old(self).account());
                &&& b.provider == caller
                &&& b.receiver == to
                &&& b.liquidity == held
                &&& final(self).state() == Phase::Withdrawing
                &&& final(self).reserve_one() == old(self).reserve_one()
                &&& final(self).reserve_two() == old(self).reserve_two()
                &&& final(self).last_update() == old(self).last_update()
                &&& final(self).tokens() == old(self).tokens()
                &&& final(self).fee_bps() == old(self).fee_bps()
                &&& final(self).account() == old(self).account()
                &&& final(self).total() == old(self).total() - held
                &&& forall|k: AccountId|
                    #![trigger final(self).balance(k)]
                    final(self).balance(k) == if k == old(self).account() {
                        0
                    } else {
                        old(self).balance(k)
                    }
            },
    {
        if self.phase != Phase::Idle {
            return Err(PairErrors::Locked);
        }
        let held = self.shares.balance_of(self.pool_account);
        proof {
            self.shares.lemma_supply_is_sum_of_balances(self.pool_account);
        }
        if held == 0 {
            return Err(PairErrors::ZeroLPMinted);
        }
        let total = self.shares.total_supply();
        let scaled_one = match held.checked_mul(balance_one) {
            Some(v) => v,
            None => return Err(PairErrors::Overflow),
        };
        let scaled_two = match held.checked_mul(balance_two) {
            Some(v) => v,
            None => return Err(PairErrors::Overflow),
        };
        let amount_one = scaled_one / total;
        let amount_two = scaled_two / total;
        if amount_one == 0 || amount_two == 0 {
            return Err(PairErrors::ZeroLPMinted);
        }
        match self.shares.redeem(self.pool_account, held) {
            Ok(()) => {},
            Err(e) => return Err(e),
        }
        self.phase = Phase::Withdrawing;
        Ok(
            Burn {
                provider: caller,
                token_one_amount: amount_one,
                token_two_amount: amount_two,
                receiver: to,
                liquidity: held,
            },
        )
    }

    /// Ends a withdrawal once the host has paid it out: the reserves become
    /// the balances that the pool now holds.
    pub fn finish_burn(&mut self, balance_one: Balance, balance_two: Balance, now: Balance) -> (r:
        Sync)
        requires
            old(self).wf(),
            old(self).state() == Phase::Withdrawing,
        ensures
            final(self).wf(),
            r == (Sync { token_one_reserve: balance_one, token_two_reserve: balance_two }),
            final(self).reserve_one() == balance_one,
            final(self).reserve_two() == balance_two,
            final(self).last_update() == later(old(self).last_update(), now as int),
            final(self).state() == Phase::Idle,
            old(self).same_but_reserves(*final(self)),
    {
        self.phase = Phase::Idle;
        self.update(balance_one, balance_two, now)
    }

    /// Accepts a request to pay `out_one` and `out_two`: at least one is
    /// nonzero and each is below its reserve. The pool stays locked until
    /// `finish_swap`; the host pays out in between. A request for nothing on
    /// either side is refused as `PoolOutOfTokenOne`, whatever the reserves;
    /// otherwise side one is checked before side two.
    pub fn begin_swap(&mut self, out_one: Balance, out_two: Balance) -> (r: Result<(), PairErrors>)
        requires
            old(self).wf(),
        ensures
            final(self).wf(),
            old(self).state() != Phase::Idle ==> r == Err::<(), PairErrors>(PairErrors::Locked),
            old(self).state() == Phase::Idle ==> r == if (out_one == 0 && out_two == 0) || out_one
                >= old(self).reserve_one() {
                Err::<(), PairErrors>(PairErrors::PoolOutOfTokenOne)
            } else if out_two >= old(self).reserve_two() {
                Err::<(), PairErrors>(PairErrors::PoolOutOfTokenTwo)
            } else {
                Ok::<(), PairErrors>(())
            },
            r is Err ==> *final(self) == *old(self),
            r is Ok ==> final(self).state() == (Phase::Swapping { out_one, out_two })
                && old(self).same_but_phase(*final(self)),
    {
        if self.phase != Phase::Idle {
            return Err(PairErrors::Locked);
        }
        if (out_one == 0 && out_two == 0) || out_one >= self.reserve_token_one {
            return Err(PairErrors::PoolOutOfTokenOne);
        }
        if out_two >= self.reserve_token_two {
            return Err(PairErrors::PoolOutOfTokenTwo);
        }
        self.phase = Phase::Swapping { out_one, out_two };
        Ok(())
    }

    /// Settles an accepted swap once the host has paid it out and the pool
    /// holds `balance_one` and `balance_two`: what came in on each side is
    /// charged the fee, and the product of the adjusted balances must not fall
    /// below that of the reserves. On success the reserves become the
    /// balances; either way the pool is unlocked.
    pub fn finish_swap(
        &mut self,
        trader: AccountId,
        to: AccountId,
        balance_one: Balance,
        balance_two: Balance,
        now: Balance,
    ) -> (r: Result<Swap, PairErrors>)
        requires
            old(self).wf(),
            old(self).state() is Swapping,
        ensures
            final(self).wf(),
            final(self).state() == Phase::Idle,
            ({
                let (o1, o2) = match old(self).state() {
                    Phase::Swapping { out_one, out_two } => (out_one as int, out_two as int),
                    _ => (0, 0),
                };
                let r1 = old(self).reserve_one();
                let r2 = old(self).reserve_two();
                let b1 = balance_one as int;
                let b2 = balance_two as int;
                &&& match r {
                    Ok(_) => swap_outcome(r1, r2, o1, o2, b1, b2, old(self).fee_bps())
                        == Ok::<(), PairErrors>(()),
                    Err(e) => swap_outcome(r1, r2, o1, o2, b1, b2, old(self).fee_bps()) == Err::<
                        (),
                        PairErrors,
                    >(e),
                }
                &&& r matches Ok(sw) ==> sw == (Swap {
                    trader,
                    amount_token_one_in: inbound(b1, r1, o1) as Balance,
                    amount_token_two_in: inbound(b2, r2, o2) as Balance,
                    amount_token_one_out: o1 as Balance,
                    amount_token_two_out: o2 as Balance,
                    receiver: to,
                })
                &&& r is Ok ==> b1 * b2 >= r1 * r2
            }),
            r is Err ==> old(self).same_but_phase(*final(self)),
            r is Ok ==> final(self).reserve_one() == balance_one && final(self).reserve_two()
                == balance_two
                && final(self).last_update() == later(old(self).last_update(), now as int)
                && old(self).same_but_reserves(*final(self)),
    {
        let (out_one, out_two) = match self.phase {
            Phase::Swapping { out_one, out_two } => (out_one, out_two),
            _ => (0, 0),
        };
        self.phase = Phase::Idle;
        let reserve_one = self.reserve_token_one;
        let reserve_two = self.reserve_token_two;
        let fee = self.fee;
        let in_one = if balance_one > reserve_one - out_one {
            balance_one - (reserve_one - out_one)
        } else {
            0
        };
        let in_two = if balance_two > reserve_two - out_two {
            balance_two - (reserve_two - out_two)
        } else {
            0
        };
        let scaled_one = match balance_one.checked_mul(FEE_DENOMINATOR) {
            Some(v) => v,
            None => return Err(PairErrors::Overflow),
        };
        let scaled_two = match balance_two.checked_mul(FEE_DENOMINATOR) {
            Some(v) => v,
            None => return Err(PairErrors::Overflow),
        };
        assert(in_one * fee <= balance_one * FEE_DENOMINATOR) by (nonlinear_arith)
            requires
                in_one <= balance_one,
                fee <= FEE_DENOMINATOR,
        ;
        assert(in_two * fee <= balance_two * FEE_DENOMINATOR) by (nonlinear_arith)
            requires
                in_two <= balance_two,
                fee <= FEE_DENOMINATOR,
        ;
        let adjusted_one = scaled_one - in_one * fee;
        let adjusted_two = scaled_two - in_two * fee;
        let lhs = match adjusted_one.checked_mul(adjusted_two) {
            Some(v) => v,
            None => return Err(PairErrors::Overflow),
        };
        let product = match reserve_one.checked_mul(reserve_two) {
            Some(v) => v,
            None => return Err(PairErrors::Overflow),
        };
        let rhs = match product.checked_mul(FEE_DENOMINATOR * FEE_DENOMINATOR) {
            Some(v) => v,
            None => return Err(PairErrors::Overflow),
        };
        if lhs < rhs {
            return Err(PairErrors::SlippageTolerance);
        }
        proof {
            lemma_swap_keeps_product(
                reserve_one as int,
                reserve_two as int,
                balance_one as int,
                balance_two as int,
                in_one as int,
                in_two as int,
                fee as int,
            );
        }
        self.update(balance_one, balance_two, now);
        Ok(
            Swap {
                trader,
                amount_token_one_in: in_one,
                amount_token_two_in: in_two,
                amount_token_one_out: out_one,
                amount_token_two_out: out_two,
                receiver: to,
            },
        )
    }
}

/// A swap that passes the fee-adjusted check never lowers the product of the
/// reserves: the new balances multiply to at least what the old reserves did.
pub proof fn lemma_swap_keeps_product(
    r1: int,
    r2: int,
    b1: int,
    b2: int,
    in1: int,
    in2: int,
    fee: int,
)
    requires
        r1 >= 0,
        r2 >= 0,
        0 <= in1 <= b1,
        0 <= in2 <= b2,
        0 <= fee <= FEE_DENOMINATOR,
        adjusted(b1, in1, fee) * adjusted(b2, in2, fee) >= r1 * r2 * (FEE_DENOMINATOR
            * FEE_DENOMINATOR),
    ensures
        b1 * b2 >= r1 * r2,
{
    let x1 = adjusted(b1, in1, fee);
    let x2 = adjusted(b2, in2, fee);
    assert(0 <= x1 <= b1 * 10000 && 0 <= x2 <= b2 * 10000) by (nonlinear_arith)
        requires
            0 <= in1 <= b1,
            0 <= in2 <= b2,
            0 <= fee <= 10000,
            x1 == b1 * 10000 - in1 * fee,
            x2 == b2 * 10000 - in2 * fee,
    ;
    assert(b1 * b2 >= r1 * r2) by (nonlinear_arith)
        requires
            0 <= x1 <= b1 * 10000,
            0 <= x2 <= b2 * 10000,
            x1 * x2 >= r1 * r2 * 100000000,
    ;
}

/// A withdrawal pays each asset in proportion to the shares redeemed over the
/// supply: `amount * total <= held * balance < (amount + 1) * total`, so the
/// rounding loses less than one unit per asset, and never more than the
/// balance is paid.
pub proof fn lemma_withdraw_proportional(held: int, total: int, b1: int, b2: int)
    requires
        0 < held <= total,
        b1 >= 0,
        b2 >= 0,
        burn_outcome(held, total, b1, b2) is Ok,
    ensures
        ({
            let (a1, a2) = burn_outcome(held, total, b1, b2)->Ok_0;
            &&& a1 * total <= held * b1 < a1 * total + total
            &&& a2 * total <= held * b2 < a2 * total + total
            &&& 0 < a1 <= b1
            &&& 0 < a2 <= b2
        }),
{
    lemma_floor_div(held * b1, total);
    lemma_floor_div(held * b2, total);
    let a1 = held * b1 / total;
    let a2 = held * b2 / total;
    assert(held * b1 <= total * b1 && held * b2 <= total * b2) by (nonlinear_arith)
        requires
            held <= total,
            b1 >= 0,
            b2 >= 0,
    ;
    assert(a1 <= b1) by (nonlinear_arith)
        requires
            a1 * total <= held * b1,
            held * b1 <= total * b1,
            total > 0,
    ;
    assert(a2 <= b2) by (nonlinear_arith)
        requires
            a2 * total <= held * b2,
            held * b2 <= total * b2,
            total > 0,
    ;
}

proof fn lemma_output_within_quote_core(r_in: int, r_out: int, amount_in: int, out: int, fee: int)
    requires
        r_in > 0,
        0 <= out < r_out,
        amount_in >= 0,
        0 <= fee <= FEE_DENOMINATOR,
        adjusted(r_in + amount_in, amount_in, fee) * adjusted(r_out - out, 0, fee) >= r_in * r_out
            * (FEE_DENOMINATOR * FEE_DENOMINATOR),
    ensures
        out <= quote(amount_in as nat, r_in as nat, r_out as nat, fee as nat),
{
    let a = amount_in * (FEE_DENOMINATOR - fee);
    let den = r_in * FEE_DENOMINATOR + a;
    assert(adjusted(r_in + amount_in, amount_in, fee) == den) by (nonlinear_arith)
        requires
            a == amount_in * (10000 - fee),
            den == r_in * 10000 + a,
    ;
    assert(a >= 0) by (nonlinear_arith)
        requires
            a == amount_in * (10000 - fee),
            amount_in >= 0,
            fee <= 10000,
    ;
    assert(a * r_out >= den * out) by (nonlinear_arith)
        requires
            den * ((r_out - out) * 10000) >= r_in * r_out * 100000000,
            den == r_in * 10000 + a,
    ;
    let q = (r_out * a) / den;
    lemma_floor_div(r_out * a, den);
    assert(out <= q) by (nonlinear_arith)
        requires
            den > 0,
            a * r_out >= den * out,
            r_out * a < q * den + den,
    ;
}

/// Rounding favours the pool: a swap of `amount_in` of asset one for `out`
/// of asset two that settles pays no more than the floored quote.
pub proof fn lemma_swap_one_for_two_within_quote(r1: int, r2: int, amount_in: int, out: int, fee: int)
    requires
        r1 > 0,
        0 < out < r2,
        amount_in >= 0,
        0 <= fee <= FEE_DENOMINATOR,
        swap_outcome(r1, r2, 0, out, r1 + amount_in, r2 - out, fee) is Ok,
    ensures
        out <= quote(amount_in as nat, r1 as nat, r2 as nat, fee as nat),
{
    let x1 = adjusted(r1 + amount_in, inbound(r1 + amount_in, r1, 0), fee);
    let x2 = adjusted(r2 - out, inbound(r2 - out, r2, out), fee);
    assert(x1 * x2 == adjusted(r1 + amount_in, amount_in, fee) * adjusted(r2 - out, 0, fee));
    lemma_output_within_quote_core(r1, r2, amount_in, out, fee);
}

/// Rounding favours the pool: a swap of `amount_in` of asset two for `out`
/// of asset one that settles pays no more than the floored quote.
pub proof fn lemma_swap_two_for_one_within_quote(r1: int, r2: int, amount_in: int, out: int, fee: int)
    requires
        r2 > 0,
        0 < out < r1,
        amount_in >= 0,
        0 <= fee <= FEE_DENOMINATOR,
        swap_outcome(r1, r2, out, 0, r1 - out, r2 + amount_in, fee) is Ok,
    ensures
        out <= quote(amount_in as nat, r2 as nat, r1 as nat, fee as nat),
{
    let x1 = adjusted(r1 - out, inbound(r1 - out, r1, out), fee);
    let x2 = adjusted(r2 + amount_in, inbound(r2 + amount_in, r2, 0), fee);
    let y1 = adjusted(r1 - out, 0, fee);
    let y2 = adjusted(r2 + amount_in, amount_in, fee);
    assert(x1 == y1 && x2 == y2);
    assert(x1 * x2 == y2 * y1 && r1 * r2 == r2 * r1) by (nonlinear_arith)
        requires
            x1 == y1,
            x2 == y2,
    ;
    lemma_output_within_quote_core(r2, r1, amount_in, out, fee);
}

proof fn lemma_quote_passes_core(r_in: int, r_out: int, amount_in: int, out: int, fee: int)
    requires
        r_in > 0,
        0 <= out < r_out,
        amount_in >= 0,
        0 <= fee <= FEE_DENOMINATOR,
        out <= quote(amount_in as nat, r_in as nat, r_out as nat, fee as nat),
    ensures
        adjusted(r_in + amount_in, amount_in, fee) * adjusted(r_out - out, 0, fee) >= r_in * r_out
            * (FEE_DENOMINATOR * FEE_DENOMINATOR),
{
    let a = amount_in * (FEE_DENOMINATOR - fee);
    let den = r_in * FEE_DENOMINATOR + a;
    assert(adjusted(r_in + amount_in, amount_in, fee) == den) by (nonlinear_arith)
        requires
            a == amount_in * (10000 - fee),
            den == r_in * 10000 + a,
    ;
    assert(a >= 0 && den > 0) by (nonlinear_arith)
        requires
            a == amount_in * (10000 - fee),
            den == r_in * 10000 + a,
            r_in > 0,
            amount_in >= 0,
            fee <= 10000,
    ;
    let q = (r_out * a) / den;
    lemma_floor_div(r_out * a, den);
    assert(den * ((r_out - out) * 10000) >= r_in * r_out * 100000000) by (nonlinear_arith)
        requires
            den > 0,
            out <= q,
            q * den <= r_out * a,
            den == r_in * 10000 + a,
    ;
}

/// Every output up to the floored quote passes the constant-product check:
/// a swap of `amount_in` of asset one for such an output of asset two is
/// never refused as `SlippageTolerance` (only an amount beyond the integer
/// range can refuse it).
pub proof fn lemma_swap_one_for_two_quote_accepted(
    r1: int,
    r2: int,
    amount_in: int,
    out: int,
    fee: int,
)
    requires
        r1 > 0,
        0 < out < r2,
        amount_in >= 0,
        0 <= fee <= FEE_DENOMINATOR,
        out <= quote(amount_in as nat, r1 as nat, r2 as nat, fee as nat),
    ensures
        swap_outcome(r1, r2, 0, out, r1 + amount_in, r2 - out, fee) != Err::<(), PairErrors>(
            PairErrors::SlippageTolerance,
        ),
{
    let x1 = adjusted(r1 + amount_in, inbound(r1 + amount_in, r1, 0), fee);
    let x2 = adjusted(r2 - out, inbound(r2 - out, r2, out), fee);
    assert(x1 * x2 == adjusted(r1 + amount_in, amount_in, fee) * adjusted(r2 - out, 0, fee));
    lemma_quote_passes_core(r1, r2, amount_in, out, fee);
}

/// Every output up to the floored quote passes the constant-product check:
/// a swap of `amount_in` of asset two for such an output of asset one is
/// never refused as `SlippageTolerance`.
pub proof fn lemma_swap_two_for_one_quote_accepted(
    r1: int,
    r2: int,
    amount_in: int,
    out: int,
    fee: int,
)
    requires
        r2 > 0,
        0 < out < r1,
        amount_in >= 0,
        0 <= fee <= FEE_DENOMINATOR,
        out <= quote(amount_in as nat, r2 as nat, r1 as nat, fee as nat),
    ensures
        swap_outcome(r1, r2, out, 0, r1 - out, r2 + amount_in, fee) != Err::<(), PairErrors>(
            PairErrors::SlippageTolerance,
        ),
{
    let x1 = adjusted(r1 - out, inbound(r1 - out, r1, out), fee);
    let x2 = adjusted(r2 + amount_in, inbound(r2 + amount_in, r2, 0), fee);
    let y1 = adjusted(r1 - out, 0, fee);
    let y2 = adjusted(r2 + amount_in, amount_in, fee);
    assert(x1 == y1 && x2 == y2);
    lemma_quote_passes_core(r2, r1, amount_in, out, fee);
    assert(x1 * x2 == y2 * y1 && r1 * r2 == r2 * r1) by (nonlinear_arith)
        requires
            x1 == y1,
            x2 == y2,
    ;
}

/// What a run of swaps of asset one for asset two put in, in total; each
/// step is `(amount_in, out)`.
pub open spec fn run_in(steps: Seq<(int, int)>) -> int
    decreases steps.len(),
{
    if steps.len() == 0 {
        0
    } else {
        run_in(steps.drop_last()) + steps.last().0
    }
}

/// What a run of swaps of asset one for asset two paid out, in total.
pub open spec fn run_out(steps: Seq<(int, int)>) -> int
    decreases steps.len(),
{
    if steps.len() == 0 {
        0
    } else {
        run_out(steps.drop_last()) + steps.last().1
    }
}

/// Every step of the run, started from reserves `r1`, `r2`, settles: each
/// asks for less than the reserve it draws on and passes the check.
pub open spec fn run_settles(r1: int, r2: int, steps: Seq<(int, int)>, fee: int) -> bool
    decreases steps.len(),
{
    if steps.len() == 0 {
        true
    } else {
        let p = steps.drop_last();
        let a = r1 + run_in(p);
        let b = r2 - run_out(p);
        let (x, y) = steps.last();
        &&& run_settles(r1, r2, p, fee)
        &&& x >= 0
        &&& 0 <= y < b
        &&& swap_outcome(a, b, 0, y, a + x, b - y, fee) is Ok
    }
}

proof fn lemma_run_keeps_product(r1: int, r2: int, steps: Seq<(int, int)>, fee: int)
    requires
        r1 > 0,
        r2 > 0,
        0 <= fee <= FEE_DENOMINATOR,
        run_settles(r1, r2, steps, fee),
    ensures
        run_in(steps) >= 0,
        0 <= run_out(steps) < r2,
        (r1 * FEE_DENOMINATOR + run_in(steps) * (FEE_DENOMINATOR - fee)) * (r2 - run_out(steps))
            >= r1 * r2 * FEE_DENOMINATOR,
    decreases steps.len(),
{
    let h = FEE_DENOMINATOR - fee;
    if steps.len() == 0 {
        assert(r1 * 10000 * r2 == r1 * r2 * 10000) by (nonlinear_arith);
    } else {
        let p = steps.drop_last();
        lemma_run_keeps_product(r1, r2, p, fee);
        let xx = run_in(p);
        let yy = run_out(p);
        let a = r1 + xx;
        let b = r2 - yy;
        let (x, y) = steps.last();
        let big_p = r1 * 10000 + xx * h;
        let k = r1 * r2 * 10000;
        let d = 10000 * a + x * h;
        let x1 = adjusted(a + x, inbound(a + x, a, 0), fee);
        let x2 = adjusted(b - y, inbound(b - y, b, y), fee);
        assert(x1 == adjusted(a + x, x, fee) && x2 == (b - y) * 10000);
        assert(x1 == d) by (nonlinear_arith)
            requires
                x1 == (a + x) * 10000 - x * fee,
                d == 10000 * a + x * h,
                h == 10000 - fee,
        ;
        assert(d * (b - y) >= 10000 * a * b) by (nonlinear_arith)
            requires
                d * ((b - y) * 10000) >= a * b * 100000000,
        ;
        assert(10000 * a >= big_p && x * h >= 0 && d > 0) by (nonlinear_arith)
            requires
                big_p == r1 * 10000 + xx * h,
                a == r1 + xx,
                d == 10000 * a + x * h,
                xx >= 0,
                x >= 0,
                r1 > 0,
                0 <= h <= 10000,
        ;
        assert(big_p >= 0) by (nonlinear_arith)
            requires
                big_p == r1 * 10000 + xx * h,
                xx >= 0,
                r1 > 0,
                0 <= h,
        ;
        assert((big_p + x * h) * (b - y) * d >= (big_p + x * h) * (10000 * a * b)) by (nonlinear_arith)
            requires
                d * (b - y) >= 10000 * a * b,
                big_p + x * h >= 0,
        ;
        assert((big_p + x * h) * (10000 * a) >= big_p * d) by (nonlinear_arith)
            requires
                10000 * a >= big_p,
                x * h >= 0,
                d == 10000 * a + x * h,
        ;
        assert((big_p + x * h) * (b - y) * d >= big_p * b * d) by (nonlinear_arith)
            requires
                (big_p + x * h) * (b - y) * d >= (big_p + x * h) * (10000 * a * b),
                (big_p + x * h) * (10000 * a) >= big_p * d,
                b > 0,
        ;
        assert((big_p + x * h) * (b - y) >= big_p * b) by (nonlinear_arith)
            requires
                (big_p + x * h) * (b - y) * d >= big_p * b * d,
                d > 0,
        ;
        assert((big_p + x * h) == r1 * 10000 + (xx + x) * h) by (nonlinear_arith)
            requires
                big_p == r1 * 10000 + xx * h,
        ;
    }
}

/// Splitting a trade does not pay: a run of settled swaps of asset one for
/// asset two, started from reserves `r1` and `r2`, pays out in total no more
/// than the floored quote for everything it put in, taken as one swap.
pub proof fn lemma_repeated_swaps_within_quote(r1: int, r2: int, steps: Seq<(int, int)>, fee: int)
    requires
        r1 > 0,
        r2 > 0,
        0 <= fee <= FEE_DENOMINATOR,
        run_settles(r1, r2, steps, fee),
    ensures
        run_out(steps) <= quote(run_in(steps) as nat, r1 as nat, r2 as nat, fee as nat),
{
    lemma_run_keeps_product(r1, r2, steps, fee);
    let xs = run_in(steps);
    let ys = run_out(steps);
    let a = xs * (FEE_DENOMINATOR - fee);
    let den = r1 * FEE_DENOMINATOR + a;
    assert(a >= 0 && den > 0) by (nonlinear_arith)
        requires
            a == xs * (10000 - fee),
            den == r1 * 10000 + a,
            r1 > 0,
            xs >= 0,
            fee <= 10000,
    ;
    assert(a * r2 >= den * ys) by (nonlinear_arith)
        requires
            den * (r2 - ys) >= r1 * r2 * 10000,
            den == r1 * 10000 + a,
    ;
    let q = (r2 * a) / den;
    lemma_floor_div(r2 * a, den);
    assert(ys <= q) by (nonlinear_arith)
        requires
            den > 0,
            a * r2 >= den * ys,
            r2 * a < q * den + den,
    ;
}

} // verus!
