use crate::error::PairErrors;
use vstd::prelude::*;

verus! {

/// An account, as a handle that the host assigns to each of its addresses.
pub type AccountId = u64;

/// An amount of an asset or of pool shares.
pub type Balance = u128;

/// The sum of the amounts of a list of entries.
pub open spec fn total_of<K>(s: Seq<(K, Balance)>) -> int
    decreases s.len(),
{
    if s.len() == 0 {
        0
    } else {
        total_of(s.drop_last()) + s.last().1
    }
}

/// What a list of entries holds under key `k`: the sum of its entries for `k`
/// (at most one where keys are unique; none means zero).
pub open spec fn holding<K>(s: Seq<(K, Balance)>, k: K) -> int
    decreases s.len(),
{
    if s.len() == 0 {
        0
    } else {
        holding(s.drop_last(), k) + if s.last().0 == k {
            s.last().1 as int
        } else {
            0
        }
    }
}

pub open spec fn keys_unique<K>(s: Seq<(K, Balance)>) -> bool {
    forall|i: int, j: int| 0 <= i < j < s.len() ==> s[i].0 != s[j].0
}

pub proof fn lemma_holding_absent<K>(s: Seq<(K, Balance)>, k: K)
    requires
        forall|j: int| 0 <= j < s.len() ==> s[j].0 != k,
    ensures
        holding(s, k) == 0,
    decreases s.len(),
{
    if s.len() > 0 {
        lemma_holding_absent(s.drop_last(), k);
    }
}

pub proof fn lemma_holding_at<K>(s: Seq<(K, Balance)>, i: int)
    requires
        keys_unique(s),
        0 <= i < s.len(),
    ensures
        holding(s, s[i].0) == s[i].1,
    decreases s.len(),
{
    let p = s.drop_last();
    if i == s.len() - 1 {
        lemma_holding_absent(p, s[i].0);
    } else {
        lemma_holding_at(p, i);
    }
}

pub proof fn lemma_holding_push<K>(s: Seq<(K, Balance)>, e: (K, Balance), k: K)
    ensures
        holding(s.push(e), k) == holding(s, k) + if e.0 == k {
            e.1 as int
        } else {
            0
        },
        total_of(s.push(e)) == total_of(s) + e.1,
{
    assert(s.push(e).drop_last() =~= s);
}

pub proof fn lemma_holding_update<K>(s: Seq<(K, Balance)>, i: int, v: Balance, k: K)
    requires
        0 <= i < s.len(),
    ensures
        holding(s.update(i, (s[i].0, v)), k) == holding(s, k) + if s[i].0 == k {
            v - s[i].1
        } else {
            0
        },
        total_of(s.update(i, (s[i].0, v))) == total_of(s) + v - s[i].1,
    decreases s.len(),
{
    let t = s.update(i, (s[i].0, v));
    if i == s.len() - 1 {
        assert(t.drop_last() =~= s.drop_last());
    } else {
        assert(t.drop_last() =~= s.drop_last().update(i, (s[i].0, v)));
        lemma_holding_update(s.drop_last(), i, v, k);
    }
}

/// What two distinct keys hold together is bounded by the total.
pub proof fn lemma_holdings_within_total<K>(s: Seq<(K, Balance)>, a: K, b: K)
    ensures
        0 <= holding(s, a) <= total_of(s),
        a != b ==> holding(s, a) + holding(s, b) <= total_of(s),
    decreases s.len(),
{
    if s.len() > 0 {
        lemma_holdings_within_total(s.drop_last(), a, b);
    }
}

/// The ledger of pool shares: the supply, each holder's balance and the
/// allowances between holders.
#[derive(Clone)]
pub struct ShareLedger {
    total_supply: Balance,
    balances: Vec<(AccountId, Balance)>,
    allowances: Vec<((AccountId, AccountId), Balance)>,
}

impl ShareLedger {
    /// The entries of the balance table, one per holder that ever held shares.
    pub closed spec fn holders(&self) -> Seq<(AccountId, Balance)> {
        self.balances@
    }

    pub closed spec fn total(&self) -> int {
        self.total_supply as int
    }

    pub open spec fn balance(&self, a: AccountId) -> int {
        holding(self.holders(), a)
    }

    pub closed spec fn allowance(&self, owner: AccountId, spender: AccountId) -> int {
        holding(self.allowances@, (owner, spender))
    }

    /// Keys are unique in both tables and the supply is the sum of all balances.
    pub closed spec fn wf(&self) -> bool {
        &&& keys_unique(self.balances@)
        &&& keys_unique(self.allowances@)
        &&& self.total_supply == total_of(self.balances@)
    }

    /// The supply always equals the sum of the balances of all holders, and no
    /// balance exceeds the supply.
    pub proof fn lemma_supply_is_sum_of_balances(&self, a: AccountId)
        requires
            self.wf(),
        ensures
            self.total() == total_of(self.holders()),
            keys_unique(self.holders()),
            0 <= self.balance(a) <= self.total() <= u128::MAX,
    {
        lemma_holdings_within_total(self.balances@, a, a);
    }

    pub fn new() -> (r: ShareLedger)
        ensures
            r.wf(),
            r.total() == 0,
            forall|a: AccountId| r.balance(a) == 0,
            forall|o: AccountId, s: AccountId| r.allowance(o, s) == 0,
    {
        ShareLedger { total_supply: 0, balances: Vec::new(), allowances: Vec::new() }
    }

    pub fn total_supply(&self) -> (r: Balance)
        ensures
            r == self.total(),
    {
        self.total_supply
    }

    fn find_holder(&self, a: AccountId) -> (r: Option<usize>)
        ensures
            r matches Some(i) ==> i < self.balances@.len() && self.balances@[i as int].0 == a,
            r is None ==> forall|j: int| 0 <= j < self.balances@.len() ==> self.balances@[j].0 != a,
    {
        let mut i: usize = 0;
        while i < self.balances.len()
            invariant
                i <= self.balances@.len(),
                forall|j: int| 0 <= j < i ==> self.balances@[j].0 != a,
            decreases self.balances@.len() - i,
        {
            if self.balances[i].0 == a {
                return Some(i);
            }
            i = i + 1;
        }
        None
    }

    fn find_allowance(&self, owner: AccountId, spender: AccountId) -> (r: Option<usize>)
        ensures
            r matches Some(i) ==> i < self.allowances@.len() && self.allowances@[i as int].0 == (
            owner, spender),
            r is None ==> forall|j: int|
                0 <= j < self.allowances@.len() ==> self.allowances@[j].0 != (owner, spender),
    {
        let mut i: usize = 0;
        while i < self.allowances.len()
            invariant
                i <= self.allowances@.len(),
                forall|j: int| 0 <= j < i ==> self.allowances@[j].0 != (owner, spender),
            decreases self.allowances@.len() - i,
        {
            let key = self.allowances[i].0;
            if key.0 == owner && key.1 == spender {
                return Some(i);
            }
            i = i + 1;
        }
        None
    }

    pub fn balance_of(&self, a: AccountId) -> (r: Balance)
        requires
            self.wf(),
        ensures
            r == self.balance(a),
    {
        match self.find_holder(a) {
            Some(i) => {
                proof {
                    lemma_holding_at(self.balances@, i as int);
                }
                self.balances[i].1
            },
            None => {
                proof {
                    lemma_holding_absent(self.balances@, a);
                }
                0
            },
        }
    }

    pub fn allowance_of(&self, owner: AccountId, spender: AccountId) -> (r: Balance)
        requires
            self.wf(),
        ensures
            r == self.allowance(owner, spender),
    {
        match self.find_allowance(owner, spender) {
            Some(i) => {
                proof {
                    lemma_holding_at(self.allowances@, i as int);
                }
                self.allowances[i].1
            },
            None => {
                proof {
                    lemma_holding_absent(self.allowances@, (owner, spender));
                }
                0
            },
        }
    }

    /// Sets the balance of `a` to `v`, keeping the supply; the caller mends it.
    fn write_balance(&mut self, a: AccountId, v: Balance)
        requires
            keys_unique(old(self).balances@),
        ensures
            keys_unique(final(self).balances@),
            final(self).total_supply == old(self).total_supply,
            final(self).allowances == old(self).allowances,
            forall|k: AccountId|
                #![trigger holding(final(self).balances@, k)]
                holding(final(self).balances@, k) == if k == a {
                    v as int
                } else {
                    holding(old(self).balances@, k)
                },
            total_of(final(self).balances@) == total_of(old(self).balances@) + v - holding(
                old(self).balances@,
                a,
            ),
    {
        let ghost s = self.balances@;
        match self.find_holder(a) {
            Some(i) => {
                proof {
                    lemma_holding_at(s, i as int);
                    assert forall|k: AccountId| #[trigger]
                        holding(s.update(i as int, (a, v)), k) == if k == a {
                            v as int
                        } else {
                            holding(s, k)
                        } by {
                        lemma_holding_update(s, i as int, v, k);
                    }
                    lemma_holding_update(s, i as int, v, a);
                }
                self.balances.set(i, (a, v));
                assert(self.balances@ == s.update(i as int, (a, v)));
            },
            None => {
                proof {
                    lemma_holding_absent(s, a);
                    assert forall|k: AccountId| #[trigger]
                        holding(s.push((a, v)), k) == if k == a {
                            v as int
                        } else {
                            holding(s, k)
                        } by {
                        lemma_holding_push(s, (a, v), k);
                    }
                    lemma_holding_push(s, (a, v), a);
                }
                self.balances.push((a, v));
            },
        }
    }

    /// Sets the allowance of `spender` over `owner`'s shares to `v`.
    fn write_allowance(&mut self, owner: AccountId, spender: AccountId, v: Balance)
        requires
            keys_unique(old(self).allowances@),
        ensures
            keys_unique(final(self).allowances@),
            final(self).total_supply == old(self).total_supply,
            final(self).balances == old(self).balances,
            forall|k: (AccountId, AccountId)|
                #![trigger holding(final(self).allowances@, k)]
                holding(final(self).allowances@, k) == if k == (owner, spender) {
                    v as int
                } else {
                    holding(old(self).allowances@, k)
                },
    {
        let ghost s = self.allowances@;
        let key = (owner, spender);
        match self.find_allowance(owner, spender) {
            Some(i) => {
                proof {
                    assert forall|k: (AccountId, AccountId)| #[trigger]
                        holding(s.update(i as int, (key, v)), k) == if k == key {
                            v as int
                        } else {
                            holding(s, k)
                        } by {
                        lemma_holding_at(s, i as int);
                        lemma_holding_update(s, i as int, v, k);
                    }
                }
                self.allowances.set(i, (key, v));
                assert(self.allowances@ == s.update(i as int, (key, v)));
            },
            None => {
                proof {
                    lemma_holding_absent(s, key);
                    assert forall|k: (AccountId, AccountId)| #[trigger]
                        holding(s.push((key, v)), k) == if k == key {
                            v as int
                        } else {
                            holding(s, k)
                        } by {
                        lemma_holding_push(s, (key, v), k);
                    }
                }
                self.allowances.push((key, v));
            },
        }
    }

    /// Creates `amount` new shares for `holder`.
    pub fn issue(&mut self, holder: AccountId, amount: Balance) -> (r: Result<(), PairErrors>)
        requires
            old(self).wf(),
        ensures
            final(self).wf(),
            r is Err <==> old(self).total() + amount > u128::MAX,
            r is Err ==> r == Err::<(), PairErrors>(PairErrors::Overflow) && *final(self) == *old(
                self),
            r is Ok ==> final(self).total() == old(self).total() + amount,
            r is Ok ==> forall|k: AccountId|
                #![trigger final(self).balance(k)]
                final(self).balance(k) == old(self).balance(k) + if k == holder {
                    amount as int
                } else {
                    0
                },
            forall|o: AccountId, s: AccountId|
                #![trigger final(self).allowance(o, s)]
                final(self).allowance(o, s) == old(self).allowance(o, s),
    {
        proof {
            lemma_holdings_within_total(self.balances@, holder, holder);
        }
        if amount > u128::MAX - self.total_supply {
            return Err(PairErrors::Overflow);
        }
        let b = self.balance_of(holder);
        self.write_balance(holder, b + amount);
        self.total_supply = self.total_supply + amount;
        Ok(())
    }

    /// Destroys `amount` of `holder`'s shares.
    pub fn redeem(&mut self, holder: AccountId, amount: Balance) -> (r: Result<(), PairErrors>)
        requires
            old(self).wf(),
        ensures
            final(self).wf(),
            r is Err <==> old(self).balance(holder) < amount,
            r is Err ==> r == Err::<(), PairErrors>(PairErrors::InsufficientLPBalance) && *final(
                self) == *old(self),
            r is Ok ==> final(self).total() == old(self).total() - amount,
            r is Ok ==> forall|k: AccountId|
                #![trigger final(self).balance(k)]
                final(self).balance(k) == old(self).balance(k) - if k == holder {
                    amount as int
                } else {
                    0
                },
            forall|o: AccountId, s: AccountId|
                #![trigger final(self).allowance(o, s)]
                final(self).allowance(o, s) == old(self).allowance(o, s),
    {
        proof {
            lemma_holdings_within_total(self.balances@, holder, holder);
        }
        let b = self.balance_of(holder);
        if b < amount {
            return Err(PairErrors::InsufficientLPBalance);
        }
        self.write_balance(holder, b - amount);
        self.total_supply = self.total_supply - amount;
        Ok(())
    }

    /// Moves `amount` shares from `from` to `to`; the supply stays.
    pub fn move_shares(&mut self, from: AccountId, to: AccountId, amount: Balance) -> (r: Result<
        (),
        PairErrors,
    >)
        requires
            old(self).wf(),
        ensures
            final(self).wf(),
            r is Err <==> old(self).balance(from) < amount,
            r is Err ==> r == Err::<(), PairErrors>(PairErrors::InsufficientLPBalance) && *final(
                self) == *old(self),
            final(self).total() == old(self).total(),
            r is Ok ==> forall|k: AccountId|
                #![trigger final(self).balance(k)]
                final(self).balance(k) == old(self).balance(k) - (if k == from {
                    amount as int
                } else {
                    0
                }) + (if k == to {
                    amount as int
                } else {
                    0
                }),
            forall|o: AccountId, s: AccountId|
                #![trigger final(self).allowance(o, s)]
                final(self).allowance(o, s) == old(self).allowance(o, s),
    {
        proof {
            lemma_holdings_within_total(self.balances@, from, to);
        }
        let b = self.balance_of(from);
        if b < amount {
            return Err(PairErrors::InsufficientLPBalance);
        }
        if from == to {
            return Ok(());
        }
        let c = self.balance_of(to);
        self.write_balance(from, b - amount);
        self.write_balance(to, c + amount);
        Ok(())
    }

    /// Lets `spender` move up to `amount` of `owner`'s shares.
    pub fn approve(&mut self, owner: AccountId, spender: AccountId, amount: Balance)
        requires
            old(self).wf(),
        ensures
            final(self).wf(),
            final(self).total() == old(self).total(),
            forall|k: AccountId|
                #![trigger final(self).balance(k)]
                final(self).balance(k) == old(self).balance(k),
            forall|o: AccountId, s: AccountId|
                #![trigger final(self).allowance(o, s)]
                final(self).allowance(o, s) == if o == owner && s == spender {
                    amount as int
                } else {
                    old(self).allowance(o, s)
                },
    {
        self.write_allowance(owner, spender, amount);
    }

    /// Uses `amount` of what `owner` approved for `spender`.
    pub fn spend_allowance(&mut self, owner: AccountId, spender: AccountId, amount: Balance) -> (r:
        Result<(), PairErrors>)
        requires
            old(self).wf(),
        ensures
            final(self).wf(),
            r is Err <==> old(self).allowance(owner, spender) < amount,
            r is Err ==> r == Err::<(), PairErrors>(PairErrors::InsufficientLPAllowance) && *final(
                self) == *old(self),
            final(self).total() == old(self).total(),
            forall|k: AccountId|
                #![trigger final(self).balance(k)]
                final(self).balance(k) == old(self).balance(k),
            r is Ok ==> forall|o: AccountId, s: AccountId|
                #![trigger final(self).allowance(o, s)]
                final(self).allowance(o, s) == old(self).allowance(o, s) - if o == owner && s
                    == spender {
                    amount as int
                } else {
                    0
                },
    {
        let a = self.allowance_of(owner, spender);
        if a < amount {
            return Err(PairErrors::InsufficientLPAllowance);
        }
        self.write_allowance(owner, spender, a - amount);
        Ok(())
    }

    /// `spender` moves `amount` of `owner`'s shares to `to`, within its allowance.
    /// The allowance is checked first, then the balance.
    pub fn transfer_from(
        &mut self,
        spender: AccountId,
        owner: AccountId,
        to: AccountId,
        amount: Balance,
    ) -> (r: Result<(), PairErrors>)
        requires
            old(self).wf(),
        ensures
            final(self).wf(),
            old(self).allowance(owner, spender) < amount ==> r == Err::<(), PairErrors>(
                PairErrors::InsufficientLPAllowance),
            old(self).allowance(owner, spender) >= amount && old(self).balance(owner) < amount
                ==> r == Err::<(), PairErrors>(PairErrors::InsufficientLPBalance),
            r is Ok <==> old(self).allowance(owner, spender) >= amount && old(self).balance(owner)
                >= amount,
            r is Err ==> *final(self) == *old(self),
            final(self).total() == old(self).total(),
            r is Ok ==> forall|k: AccountId|
                #![trigger final(self).balance(k)]
                final(self).balance(k) == old(self).balance(k) - (if k == owner {
                    amount as int
                } else {
                    0
                }) + (if k == to {
                    amount as int
                } else {
                    0
                }),
            r is Ok ==> forall|o: AccountId, s: AccountId|
                #![trigger final(self).allowance(o, s)]
                final(self).allowance(o, s) == old(self).allowance(o, s) - if o == owner && s
                    == spender {
                    amount as int
                } else {
                    0
                },
    {
        let a = self.allowance_of(owner, spender);
        if a < amount {
            return Err(PairErrors::InsufficientLPAllowance);
        }
        let b = self.balance_of(owner);
        if b < amount {
            return Err(PairErrors::InsufficientLPBalance);
        }
        match self.spend_allowance(owner, spender, amount) {
            Ok(()) => {},
            Err(e) => return Err(e),
        }
        match self.move_shares(owner, to, amount) {
            Ok(()) => {},
            Err(e) => return Err(e),
        }
        Ok(())
    }
}

} // verus!
