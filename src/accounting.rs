use vstd::prelude::*;

use crate::errors::{ApplicationError, ErrorView};
use crate::tx::{Tx, TxView};

verus! {

/// A participant's entry in the ledger.
#[derive(Clone, Debug)]
struct Account {
    signer: String,
    balance: u64,
}

/// The ledger: one balance per signer, in the order the accounts were opened.
#[derive(Debug)]
pub struct Accounts {
    accounts: Vec<Account>,
}

/// A position in the ledger of the entry for `k`, or -1 where there is none.
pub open spec fn index_of(v: Seq<(Seq<char>, u64)>, k: Seq<char>) -> int
    decreases v.len(),
{
    if v.len() == 0 {
        -1
    } else if v.last().0 == k {
        v.len() - 1
    } else {
        index_of(v.drop_last(), k)
    }
}

/// The ledger holds an account for `k`.
pub open spec fn has_account(v: Seq<(Seq<char>, u64)>, k: Seq<char>) -> bool {
    index_of(v, k) >= 0
}

/// The balance of `k`'s account.
pub open spec fn balance(v: Seq<(Seq<char>, u64)>, k: Seq<char>) -> u64 {
    v[index_of(v, k)].1
}

/// No two entries share a signer.
pub open spec fn unique_signers(v: Seq<(Seq<char>, u64)>) -> bool {
    forall|i: int, j: int| 0 <= i < j < v.len() ==> (#[trigger] v[i]).0 != (#[trigger] v[j]).0
}

/// The ledger after `k` is credited with `x`: the account is opened if there is none.
pub open spec fn credited(v: Seq<(Seq<char>, u64)>, k: Seq<char>, x: u64) -> Seq<(Seq<char>, u64)> {
    if has_account(v, k) {
        v.update(index_of(v, k), (k, (balance(v, k) + x) as u64))
    } else {
        v.push((k, x))
    }
}

/// The ledger after `x` is taken from `k`'s account.
pub open spec fn debited(v: Seq<(Seq<char>, u64)>, k: Seq<char>, x: u64) -> Seq<(Seq<char>, u64)> {
    if has_account(v, k) {
        v.update(index_of(v, k), (k, (balance(v, k) - x) as u64))
    } else {
        v
    }
}

/// The ledger after a transaction.
pub open spec fn apply_tx(v: Seq<(Seq<char>, u64)>, t: TxView) -> Seq<(Seq<char>, u64)> {
    match t {
        TxView::Deposit(k, x) => credited(v, k, x),
        TxView::Withdraw(k, x) => debited(v, k, x),
    }
}

/// The ledger that replaying a journal, in order, on an empty ledger produces.
pub open spec fn replay(j: Seq<TxView>) -> Seq<(Seq<char>, u64)>
    decreases j.len(),
{
    if j.len() == 0 {
        Seq::empty()
    } else {
        apply_tx(replay(j.drop_last()), j.last())
    }
}

/// What a transaction adds to the sum of all balances.
pub open spec fn tx_delta(t: TxView) -> int {
    match t {
        TxView::Deposit(_, x) => x as int,
        TxView::Withdraw(_, x) => -(x as int),
    }
}

/// The sum of all deposits less the sum of all withdrawals of a journal.
pub open spec fn journal_net(j: Seq<TxView>) -> int
    decreases j.len(),
{
    if j.len() == 0 {
        0
    } else {
        journal_net(j.drop_last()) + tx_delta(j.last())
    }
}

/// The sum of all balances.
pub open spec fn total_balance(v: Seq<(Seq<char>, u64)>) -> int
    decreases v.len(),
{
    if v.len() == 0 {
        0
    } else {
        total_balance(v.drop_last()) + v.last().1
    }
}

/// The outcome of depositing `x` for `k`.
pub open spec fn deposit_result(v: Seq<(Seq<char>, u64)>, k: Seq<char>, x: u64) -> Result<TxView, ErrorView> {
    if has_account(v, k) && balance(v, k) + x > u64::MAX {
        Err(ErrorView::AccountOverFunded(k, x))
    } else {
        Ok(TxView::Deposit(k, x))
    }
}

/// The outcome of withdrawing `x` from `k`.
pub open spec fn withdraw_result(v: Seq<(Seq<char>, u64)>, k: Seq<char>, x: u64) -> Result<TxView, ErrorView> {
    if !has_account(v, k) {
        Err(ErrorView::AccountNotFound(k))
    } else if balance(v, k) < x {
        Err(ErrorView::AccountUnderFunded(k, x))
    } else {
        Ok(TxView::Withdraw(k, x))
    }
}

/// The outcome of sending `x` from `from` to `to`: the recipient must exist, then the
/// withdrawal and the deposit that follows it must both succeed; otherwise nothing happens.
pub open spec fn send_result(v: Seq<(Seq<char>, u64)>, from: Seq<char>, to: Seq<char>, x: u64) -> Result<
    (TxView, TxView),
    ErrorView,
> {
    if !has_account(v, to) {
        Err(ErrorView::AccountNotFound(to))
    } else {
        match withdraw_result(v, from, x) {
            Err(e) => Err(e),
            Ok(t1) => match deposit_result(apply_tx(v, t1), to, x) {
                Err(e) => Err(e),
                Ok(t2) => Ok((t1, t2)),
            },
        }
    }
}

pub proof fn lemma_index_of(v: Seq<(Seq<char>, u64)>, k: Seq<char>)
    ensures
        -1 <= index_of(v, k) < v.len(),
        index_of(v, k) >= 0 ==> v[index_of(v, k)].0 == k,
        index_of(v, k) == -1 ==> forall|i: int| 0 <= i < v.len() ==> (#[trigger] v[i]).0 != k,
    decreases v.len(),
{
    if v.len() > 0 && v.last().0 != k {
        lemma_index_of(v.drop_last(), k);
        if index_of(v, k) == -1 {
            assert forall|i: int| 0 <= i < v.len() implies (#[trigger] v[i]).0 != k by {
                if i < v.len() - 1 {
                    assert(v[i] == v.drop_last()[i]);
                }
            }
        }
    }
}

pub proof fn lemma_index_of_unique(v: Seq<(Seq<char>, u64)>, i: int)
    requires
        unique_signers(v),
        0 <= i < v.len(),
    ensures
        index_of(v, v[i].0) == i,
{
    lemma_index_of(v, v[i].0);
}

/// Where two ledgers hold the same signers at the same places, they find them at the same places.
pub proof fn lemma_index_of_same_signers(v: Seq<(Seq<char>, u64)>, w: Seq<(Seq<char>, u64)>, k: Seq<char>)
    requires
        v.len() == w.len(),
        forall|i: int| 0 <= i < v.len() ==> (#[trigger] v[i]).0 == w[i].0,
    ensures
        index_of(v, k) == index_of(w, k),
    decreases v.len(),
{
    if v.len() > 0 {
        assert(v.last().0 == w.last().0);
        assert forall|i: int| 0 <= i < v.drop_last().len() implies (#[trigger] v.drop_last()[i]).0
            == w.drop_last()[i].0 by {
            assert(v.drop_last()[i] == v[i] && w.drop_last()[i] == w[i]);
        }
        lemma_index_of_same_signers(v.drop_last(), w.drop_last(), k);
    }
}

pub proof fn lemma_total_balance_update(v: Seq<(Seq<char>, u64)>, i: int, e: (Seq<char>, u64))
    requires
        0 <= i < v.len(),
    ensures
        total_balance(v.update(i, e)) == total_balance(v) - v[i].1 + e.1,
    decreases v.len(),
{
    let w = v.update(i, e);
    if i == v.len() - 1 {
        assert(w.drop_last() =~= v.drop_last());
    } else {
        assert(w.drop_last() =~= v.drop_last().update(i, e));
        lemma_total_balance_update(v.drop_last(), i, e);
    }
}

/// The transaction can be applied: a deposit does not overflow, a withdrawal is covered.
pub open spec fn tx_valid(v: Seq<(Seq<char>, u64)>, t: TxView) -> bool {
    match t {
        TxView::Deposit(k, x) => deposit_result(v, k, x) is Ok,
        TxView::Withdraw(k, x) => withdraw_result(v, k, x) is Ok,
    }
}

/// Applying a valid transaction changes the sum of balances by its amount and keeps the
/// signers unique.
pub proof fn lemma_apply_tx(v: Seq<(Seq<char>, u64)>, t: TxView)
    requires
        unique_signers(v),
        tx_valid(v, t),
    ensures
        total_balance(apply_tx(v, t)) == total_balance(v) + tx_delta(t),
        unique_signers(apply_tx(v, t)),
        forall|k: Seq<char>| has_account(apply_tx(v, t), k) <== has_account(v, k),
{
    let w = apply_tx(v, t);
    let k = match t {
        TxView::Deposit(k, _) => k,
        TxView::Withdraw(k, _) => k,
    };
    lemma_index_of(v, k);
    if has_account(v, k) {
        let i = index_of(v, k);
        lemma_total_balance_update(v, i, w[i]);
        assert(w =~= v.update(i, w[i]));
        assert forall|a: int| 0 <= a < v.len() implies (#[trigger] w[a]).0 == v[a].0 by {}
        assert forall|k2: Seq<char>| has_account(v, k2) implies has_account(w, k2) by {
            lemma_index_of_same_signers(v, w, k2);
        }
    } else {
        assert(w.drop_last() =~= v);
        assert forall|a: int, b: int| 0 <= a < b < w.len() implies (#[trigger] w[a]).0 != (#[trigger] w[b]).0 by {
            if b == w.len() - 1 {
                assert(w[a] == v[a]);
            } else {
                assert(w[a] == v[a] && w[b] == v[b]);
            }
        }
        assert forall|k2: Seq<char>| has_account(v, k2) implies has_account(w, k2) by {
            lemma_index_of(v, k2);
            lemma_index_of(w, k2);
            let i = index_of(v, k2);
            assert(w[i] == v[i]);
        }
    }
}

/// Every transaction of the journal applies to the ledger that the ones before it built.
pub open spec fn journal_valid(j: Seq<TxView>) -> bool
    decreases j.len(),
{
    j.len() == 0 || (journal_valid(j.drop_last()) && tx_valid(replay(j.drop_last()), j.last()))
}

/// The ledger that a valid journal builds has one entry per signer, and its balances sum to
/// the journal's deposits less its withdrawals.
pub proof fn lemma_replay_valid(j: Seq<TxView>)
    requires
        journal_valid(j),
    ensures
        unique_signers(replay(j)),
        total_balance(replay(j)) == journal_net(j),
    decreases j.len(),
{
    if j.len() > 0 {
        lemma_replay_valid(j.drop_last());
        lemma_apply_tx(replay(j.drop_last()), j.last());
    }
}

impl View for Accounts {
    type V = Seq<(Seq<char>, u64)>;

    closed spec fn view(&self) -> Seq<(Seq<char>, u64)> {
        self.accounts@.map_values(|a: Account| (a.signer@, a.balance))
    }
}

impl Accounts {
    /// Each signer has at most one entry.
    pub open spec fn wf(&self) -> bool {
        unique_signers(self@)
    }

    /// Creates an empty ledger.
    pub fn new() -> (r: Self)
        ensures
            r.wf(),
            r@ == Seq::<(Seq<char>, u64)>::empty(),
    {
        let r = Accounts { accounts: Vec::new() };
        assert(r@ =~= Seq::<(Seq<char>, u64)>::empty());
        r
    }

    fn find(&self, key: &String) -> (r: Option<usize>)
        requires
            self.wf(),
        ensures
            match r {
                Some(i) => i as int == index_of(self@, key@) && i < self@.len(),
                None => index_of(self@, key@) == -1,
            },
    {
        let mut i: usize = 0;
        while i < self.accounts.len()
            invariant
                i <= self.accounts@.len(),
                self.wf(),
                self@.len() == self.accounts@.len(),
                forall|j: int| 0 <= j < i ==> (#[trigger] self@[j]).0 != key@,
            decreases self.accounts@.len() - i,
        {
            if self.accounts[i].signer == *key {
                proof {
                    lemma_index_of_unique(self@, i as int);
                }
                return Some(i);
            }
            i = i + 1;
        }
        proof {
            lemma_index_of(self@, key@);
        }
        None
    }

    /// The balance of `signer`'s account.
    pub fn balance_of(&self, signer: &str) -> (r: Result<&u64, ApplicationError>)
        requires
            self.wf(),
        ensures
            match r {
                Ok(b) => has_account(self@, signer@) && *b == balance(self@, signer@),
                Err(e) => !has_account(self@, signer@) && e@ == ErrorView::AccountNotFound(signer@),
            },
    {
        let key = signer.to_owned();
        match self.find(&key) {
            Some(i) => Ok(&self.accounts[i].balance),
            None => Err(ApplicationError::AccountNotFound(key)),
        }
    }

    /// Credits `signer` with `amount`, opening the account if there is none.
    /// Fails, changing nothing, where the balance would overflow.
    pub fn deposit(&mut self, signer: &str, amount: u64) -> (r: Result<Tx, ApplicationError>)
        requires
            old(self).wf(),
        ensures
            final(self).wf(),
            match r {
                Ok(t) => deposit_result(old(self)@, signer@, amount) == Ok::<TxView, ErrorView>(t@)
                    && final(self)@ == apply_tx(old(self)@, t@),
                Err(e) => deposit_result(old(self)@, signer@, amount) == Err::<TxView, ErrorView>(e@)
                    && final(self)@ == old(self)@,
            },
    {
        let key = signer.to_owned();
        let ghost v = self@;
        proof {
            lemma_index_of(v, key@);
        }
        match self.find(&key) {
            Some(i) => {
                let b = self.accounts[i].balance;
                if b > u64::MAX - amount {
                    return Err(ApplicationError::AccountOverFunded(key, amount));
                }
                self.accounts[i].balance = b + amount;
                proof {
                    assert(self@ =~= credited(v, key@, amount));
                }
            },
            None => {
                self.accounts.push(Account { signer: key.clone(), balance: amount });
                proof {
                    assert(self@ =~= credited(v, key@, amount));
                }
            },
        }
        proof {
            lemma_apply_tx(v, TxView::Deposit(key@, amount));
        }
        Ok(Tx::Deposit { account: key, amount })
    }

    /// Takes `amount` from `signer`'s account.
    /// Fails, changing nothing, where there is no account or the balance is below `amount`.
    pub fn withdraw(&mut self, signer: &str, amount: u64) -> (r: Result<Tx, ApplicationError>)
        requires
            old(self).wf(),
        ensures
            final(self).wf(),
            match r {
                Ok(t) => withdraw_result(old(self)@, signer@, amount) == Ok::<TxView, ErrorView>(t@)
                    && final(self)@ == apply_tx(old(self)@, t@),
                Err(e) => withdraw_result(old(self)@, signer@, amount) == Err::<TxView, ErrorView>(e@)
                    && final(self)@ == old(self)@,
            },
    {
        let key = signer.to_owned();
        let ghost v = self@;
        proof {
            lemma_index_of(v, key@);
        }
        match self.find(&key) {
            Some(i) => {
                let b = self.accounts[i].balance;
                if b < amount {
                    return Err(ApplicationError::AccountUnderFunded(key, amount));
                }
                self.accounts[i].balance = b - amount;
                proof {
                    assert(self@ =~= debited(v, key@, amount));
                    lemma_apply_tx(v, TxView::Withdraw(key@, amount));
                }
                Ok(Tx::Withdraw { account: key, amount })
            },
            None => Err(ApplicationError::AccountNotFound(key)),
        }
    }

    /// Moves `amount` from `sender` to `recipient`: a withdrawal, then a deposit.
    /// Every check is made before either side is applied, so a failure changes nothing.
    pub fn send(&mut self, sender: &str, recipient: &str, amount: u64) -> (r: Result<(Tx, Tx), ApplicationError>)
        requires
            old(self).wf(),
        ensures
            final(self).wf(),
            match r {
                Ok(ts) => send_result(old(self)@, sender@, recipient@, amount) == Ok::<(TxView, TxView), ErrorView>(
                    (ts.0@, ts.1@),
                ) && final(self)@ == apply_tx(apply_tx(old(self)@, ts.0@), ts.1@),
                Err(e) => send_result(old(self)@, sender@, recipient@, amount) == Err::<(TxView, TxView), ErrorView>(
                    e@,
                ) && final(self)@ == old(self)@,
            },
    {
        let from = sender.to_owned();
        let to = recipient.to_owned();
        let ghost v = self@;
        proof {
            lemma_index_of(v, from@);
            lemma_index_of(v, to@);
        }
        let ti = match self.find(&to) {
            Some(i) => i,
            None => {
                return Err(ApplicationError::AccountNotFound(to));
            },
        };
        let fi = match self.find(&from) {
            Some(i) => i,
            None => {
                return Err(ApplicationError::AccountNotFound(from));
            },
        };
        let fb = self.accounts[fi].balance;
        if fb < amount {
            return Err(ApplicationError::AccountUnderFunded(from, amount));
        }
        let ghost t1 = TxView::Withdraw(from@, amount);
        let ghost v1 = apply_tx(v, t1);
        proof {
            assert(v1 =~= v.update(fi as int, (from@, (fb - amount) as u64)));
            assert forall|a: int| 0 <= a < v.len() implies (#[trigger] v[a]).0 == v1[a].0 by {}
            lemma_index_of_same_signers(v, v1, to@);
        }
        let tb = if fi == ti {
            fb - amount
        } else {
            self.accounts[ti].balance
        };
        if tb > u64::MAX - amount {
            return Err(ApplicationError::AccountOverFunded(to, amount));
        }
        self.accounts[fi].balance = fb - amount;
        proof {
            assert(self@ =~= v1);
        }
        let nb = self.accounts[ti].balance + amount;
        self.accounts[ti].balance = nb;
        proof {
            assert(self@ =~= credited(v1, to@, amount));
            lemma_apply_tx(v, t1);
            lemma_apply_tx(v1, TxView::Deposit(to@, amount));
        }
        Ok((Tx::Withdraw { account: from, amount }, Tx::Deposit { account: to, amount }))
    }
}

} // verus!
