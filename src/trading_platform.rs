use vstd::prelude::*;

use crate::accounting::{
    apply_tx, balance, deposit_result, has_account, index_of, journal_net, journal_valid, lemma_apply_tx, lemma_index_of,
    lemma_index_of_same_signers, lemma_replay_valid, replay, send_result, total_balance, unique_signers,
    tx_valid, withdraw_result, Accounts,
};
use crate::errors::{ApplicationError, ErrorView};
use crate::matching::{book_view, none_signed_by, LevelView, MatchingEngine};
use crate::tx::{journal_view, Tx, TxView};
use crate::types::{copy_orders, Order, PartialOrder, Receipt, Side};

verus! {

/// The venue: the ledger, the matching engine, and the journal of every balance change.
#[derive(Debug)]
pub struct TradingPlatform {
    pub matching_engine: MatchingEngine,
    pub accounts: Accounts,
    pub transactions: Vec<Tx>,
}

/// The buyer and the seller of a trade between a taker on `side` and a maker.
pub open spec fn trade_parties(side: Side, taker: Seq<char>, maker: Seq<char>) -> (Seq<char>, Seq<char>) {
    match side {
        Side::Buy => (taker, maker),
        Side::Sell => (maker, taker),
    }
}

/// The outcome of paying for one match: the buyer sends `amount * price` to the seller.
/// A value beyond 64 bits cannot be paid; the buyer is then reported under-funded.
pub open spec fn settle_match(v: Seq<(Seq<char>, u64)>, side: Side, taker: Seq<char>, m: PartialOrder) -> Result<
    (TxView, TxView),
    ErrorView,
> {
    let (buyer, seller) = trade_parties(side, taker, m.signer@);
    if m.amount * m.price > u64::MAX {
        Err(ErrorView::AccountUnderFunded(buyer, u64::MAX))
    } else {
        send_result(v, buyer, seller, (m.amount * m.price) as u64)
    }
}

/// Paying for the matches of a receipt in order, stopping at the first that fails: the ledger
/// afterwards, the transactions made, and the failure if there was one.
pub open spec fn settle(v: Seq<(Seq<char>, u64)>, side: Side, taker: Seq<char>, ms: Seq<PartialOrder>) -> (
    Seq<(Seq<char>, u64)>,
    Seq<TxView>,
    Option<ErrorView>,
)
    decreases ms.len(),
{
    if ms.len() == 0 {
        (v, Seq::empty(), None)
    } else {
        match settle_match(v, side, taker, ms[0]) {
            Err(e) => (v, Seq::empty(), Some(e)),
            Ok((t1, t2)) => {
                let (v2, txs, e) = settle(apply_tx(apply_tx(v, t1), t2), side, taker, ms.drop_first());
                (v2, seq![t1, t2] + txs, e)
            },
        }
    }
}

/// The orders of the levels, level after level.
pub open spec fn concat_levels(levels: Seq<LevelView>) -> Seq<PartialOrder>
    decreases levels.len(),
{
    if levels.len() == 0 {
        Seq::empty()
    } else {
        concat_levels(levels.drop_last()) + levels.last().orders
    }
}

/// The orders of the levels, last level first.
pub open spec fn concat_levels_reversed(levels: Seq<LevelView>) -> Seq<PartialOrder>
    decreases levels.len(),
{
    if levels.len() == 0 {
        Seq::empty()
    } else {
        concat_levels_reversed(levels.drop_first()) + levels[0].orders
    }
}

/// What a Buy order must be covered by: `amount * price`, or `u64::MAX` where that overflows.
pub open spec fn required_funds(order: Order) -> u64 {
    if order.amount * order.price > u64::MAX {
        u64::MAX
    } else {
        (order.amount * order.price) as u64
    }
}

/// Whatever operations have run, the balances sum to the deposits less the withdrawals of
/// the journal.
pub proof fn lemma_balances_sum_to_journal(p: &TradingPlatform)
    requires
        p.wf(),
    ensures
        total_balance(p.accounts@) == journal_net(journal_view(p.transactions@)),
{
    lemma_replay_valid(journal_view(p.transactions@));
}

/// Whatever operations have run, replaying the journal on an empty ledger gives the current
/// balances.
pub proof fn lemma_journal_replays_to_ledger(p: &TradingPlatform)
    requires
        p.wf(),
    ensures
        replay(journal_view(p.transactions@)) == p.accounts@,
{
}

/// Paying for a match moves funds between its two parties only: the buyer's balance falls by
/// `amount * price` and the seller's rises by as much.
pub proof fn lemma_trade_moves_funds(v: Seq<(Seq<char>, u64)>, side: Side, taker: Seq<char>, m: PartialOrder)
    requires
        unique_signers(v),
        taker != m.signer@,
        settle_match(v, side, taker, m) is Ok,
    ensures
        ({
            let (buyer, seller) = trade_parties(side, taker, m.signer@);
            let (t1, t2) = settle_match(v, side, taker, m)->Ok_0;
            let w = apply_tx(apply_tx(v, t1), t2);
            &&& has_account(w, buyer) && has_account(w, seller)
            &&& balance(w, buyer) == balance(v, buyer) - m.amount * m.price
            &&& balance(w, seller) == balance(v, seller) + m.amount * m.price
            &&& forall|k: Seq<char>|
                k != buyer && k != seller && has_account(v, k) ==> has_account(w, k) && balance(w, k) == balance(
                    v,
                    k,
                )
        }),
{
    let (buyer, seller) = trade_parties(side, taker, m.signer@);
    let x = (m.amount * m.price) as u64;
    let (t1, t2) = settle_match(v, side, taker, m)->Ok_0;
    lemma_index_of(v, buyer);
    lemma_index_of(v, seller);
    let ib = index_of(v, buyer);
    let is = index_of(v, seller);
    let v1 = apply_tx(v, t1);
    assert(v1 == v.update(ib, (buyer, (v[ib].1 - x) as u64)));
    assert forall|a: int| 0 <= a < v.len() implies (#[trigger] v[a]).0 == v1[a].0 by {}
    lemma_index_of_same_signers(v, v1, seller);
    lemma_index_of_same_signers(v, v1, buyer);
    let w = apply_tx(v1, t2);
    assert(w == v1.update(is, (seller, (v1[is].1 + x) as u64)));
    assert forall|a: int| 0 <= a < v.len() implies (#[trigger] v[a]).0 == w[a].0 by {}
    assert forall|k: Seq<char>| k != buyer && k != seller && has_account(v, k) implies has_account(w, k)
        && balance(w, k) == balance(v, k) by {
        lemma_index_of(v, k);
        lemma_index_of_same_signers(v, w, k);
    }
    lemma_index_of_same_signers(v, w, seller);
    lemma_index_of_same_signers(v, w, buyer);
}

/// The value of a match: `amount * price`.
pub open spec fn trade_value(m: PartialOrder) -> int {
    m.amount * m.price
}

/// The transactions that paying for every match produces: for each match in order, a
/// withdrawal from the buyer and a deposit to the seller of its value.
pub open spec fn payments(side: Side, taker: Seq<char>, ms: Seq<PartialOrder>) -> Seq<TxView>
    decreases ms.len(),
{
    if ms.len() == 0 {
        Seq::empty()
    } else {
        let (buyer, seller) = trade_parties(side, taker, ms[0].signer@);
        let x = trade_value(ms[0]) as u64;
        seq![TxView::Withdraw(buyer, x), TxView::Deposit(seller, x)] + payments(side, taker, ms.drop_first())
    }
}

/// What paying for every match adds to `a`'s balance: the values of the matches it sold
/// less those it bought.
pub open spec fn net_receipt(side: Side, taker: Seq<char>, ms: Seq<PartialOrder>, a: Seq<char>) -> int
    decreases ms.len(),
{
    if ms.len() == 0 {
        0
    } else {
        let (buyer, seller) = trade_parties(side, taker, ms[0].signer@);
        (if a == seller { trade_value(ms[0]) } else { 0 }) - (if a == buyer { trade_value(ms[0]) } else { 0 })
            + net_receipt(side, taker, ms.drop_first(), a)
    }
}

/// A settlement that goes through journals exactly one withdrawal and one deposit per match.
pub proof fn lemma_settle_payments(v: Seq<(Seq<char>, u64)>, side: Side, taker: Seq<char>, ms: Seq<PartialOrder>)
    requires
        settle(v, side, taker, ms).2 is None,
    ensures
        settle(v, side, taker, ms).1 == payments(side, taker, ms),
    decreases ms.len(),
{
    if ms.len() > 0 {
        let (t1, t2) = settle_match(v, side, taker, ms[0])->Ok_0;
        lemma_settle_payments(apply_tx(apply_tx(v, t1), t2), side, taker, ms.drop_first());
    }
}

/// A settlement that goes through moves every balance by that account's net over the receipt.
pub proof fn lemma_settle_moves_funds(v: Seq<(Seq<char>, u64)>, side: Side, taker: Seq<char>, ms: Seq<PartialOrder>)
    requires
        unique_signers(v),
        none_signed_by(ms, taker),
        settle(v, side, taker, ms).2 is None,
    ensures
        forall|a: Seq<char>|
            has_account(v, a) ==> has_account(settle(v, side, taker, ms).0, a) && balance(
                settle(v, side, taker, ms).0,
                a,
            ) == balance(v, a) + net_receipt(side, taker, ms, a),
    decreases ms.len(),
{
    if ms.len() > 0 {
        let m = ms[0];
        let (t1, t2) = settle_match(v, side, taker, m)->Ok_0;
        let (buyer, seller) = trade_parties(side, taker, m.signer@);
        let x = (m.amount * m.price) as u64;
        assert(taker != m.signer@);
        lemma_trade_moves_funds(v, side, taker, m);
        lemma_apply_tx(v, t1);
        lemma_apply_tx(apply_tx(v, t1), t2);
        let v1 = apply_tx(apply_tx(v, t1), t2);
        let rest = ms.drop_first();
        assert forall|k: int| 0 <= k < rest.len() implies (#[trigger] rest[k]).signer@ != taker by {
            assert(rest[k] == ms[k + 1]);
        }
        lemma_settle_moves_funds(v1, side, taker, rest);
        let v2 = settle(v, side, taker, ms).0;
        assert(v2 == settle(v1, side, taker, rest).0);
        assert forall|a: Seq<char>| has_account(v, a) implies has_account(v2, a) && balance(v2, a) == balance(v, a)
            + net_receipt(side, taker, ms, a) by {
            assert(has_account(v1, a));
        }
    }
}

impl TradingPlatform {
    /// The engine and the ledger are well formed, the journal is valid, and replaying it on an
    /// empty ledger gives the ledger.
    pub open spec fn wf(&self) -> bool {
        &&& self.matching_engine.wf()
        &&& self.accounts.wf()
        &&& journal_valid(journal_view(self.transactions@))
        &&& replay(journal_view(self.transactions@)) == self.accounts@
    }

    /// Creates a platform without accounts, orders or transactions.
    pub fn new() -> (r: Self)
        ensures
            r.wf(),
            r.accounts@.len() == 0,
            r.transactions@.len() == 0,
            r.matching_engine.ordinal == 0,
            r.matching_engine.asks@.len() == 0,
            r.matching_engine.bids@.len() == 0,
            r.matching_engine.history@.len() == 0,
    {
        let r = TradingPlatform {
            matching_engine: MatchingEngine::new(),
            accounts: Accounts::new(),
            transactions: Vec::new(),
        };
        assert(journal_view(r.transactions@) =~= Seq::<TxView>::empty());
        r
    }

    /// Every resting order: the asks, lowest price first, then the bids, lowest price first;
    /// within a price, earliest first.
    pub fn orderbook(&self) -> (r: Vec<PartialOrder>)
        ensures
            r@ == concat_levels(book_view(self.matching_engine.asks@)) + concat_levels_reversed(
                book_view(self.matching_engine.bids@),
            ),
    {
        let asks = &self.matching_engine.asks;
        let bids = &self.matching_engine.bids;
        let mut r: Vec<PartialOrder> = Vec::new();
        let mut i: usize = 0;
        while i < asks.len()
            invariant
                i <= asks@.len(),
                r@ == concat_levels(book_view(asks@).subrange(0, i as int)),
            decreases asks@.len() - i,
        {
            let mut level = copy_orders(&asks[i].orders);
            r.append(&mut level);
            proof {
                let s = book_view(asks@).subrange(0, i + 1);
                assert(s.drop_last() =~= book_view(asks@).subrange(0, i as int));
                assert(s.last() == asks@[i as int]@);
            }
            i = i + 1;
        }
        assert(book_view(asks@).subrange(0, i as int) =~= book_view(asks@));
        let ghost asks_part = r@;
        let mut j: usize = bids.len();
        assert(book_view(bids@).subrange(j as int, j as int) =~= Seq::<LevelView>::empty());
        while j > 0
            invariant
                j <= bids@.len(),
                r@ == asks_part + concat_levels_reversed(book_view(bids@).subrange(j as int, bids@.len() as int)),
            decreases j,
        {
            j = j - 1;
            let mut level = copy_orders(&bids[j].orders);
            r.append(&mut level);
            proof {
                let s = book_view(bids@).subrange(j as int, bids@.len() as int);
                assert(s.drop_first() =~= book_view(bids@).subrange(j + 1, bids@.len() as int));
                assert(s[0] == bids@[j as int]@);
                assert(r@ =~= asks_part + concat_levels_reversed(s));
            }
        }
        assert(book_view(bids@).subrange(0, bids@.len() as int) =~= book_view(bids@));
        r
    }

    /// The balance of `signer`'s account.
    pub fn balance_of(&self, signer: &str) -> (r: Result<&u64, ApplicationError>)
        requires
            self.wf(),
        ensures
            match r {
                Ok(b) => has_account(self.accounts@, signer@) && *b == balance(self.accounts@, signer@),
                Err(e) => !has_account(self.accounts@, signer@) && e@ == ErrorView::AccountNotFound(signer@),
            },
    {
        self.accounts.balance_of(signer)
    }

    proof fn lemma_journal_push(j: Seq<Tx>, t: Tx)
        requires
            journal_valid(journal_view(j)),
            tx_valid(replay(journal_view(j)), t@),
        ensures
            journal_view(j.push(t)) == journal_view(j).push(t@),
            replay(journal_view(j.push(t))) == apply_tx(replay(journal_view(j)), t@),
            journal_valid(journal_view(j.push(t))),
    {
        assert(journal_view(j.push(t)) =~= journal_view(j).push(t@));
        assert(journal_view(j).push(t@).drop_last() =~= journal_view(j));
    }

    /// Deposits `amount` for `signer` and journals the transaction.
    pub fn deposit(&mut self, signer: &str, amount: u64) -> (r: Result<Tx, ApplicationError>)
        requires
            old(self).wf(),
        ensures
            final(self).wf(),
            final(self).matching_engine == old(self).matching_engine,
            match r {
                Ok(t) => deposit_result(old(self).accounts@, signer@, amount) == Ok::<TxView, ErrorView>(t@)
                    && final(self).accounts@ == apply_tx(old(self).accounts@, t@)
                    && journal_view(final(self).transactions@) == journal_view(old(self).transactions@).push(t@),
                Err(e) => deposit_result(old(self).accounts@, signer@, amount) == Err::<TxView, ErrorView>(e@)
                    && final(self).accounts@ == old(self).accounts@
                    && final(self).transactions@ == old(self).transactions@,
            },
    {
        let r = self.accounts.deposit(signer, amount);
        match r {
            Ok(t) => {
                let ghost j = self.transactions@;
                self.transactions.push(t.copied());
                proof {
                    Self::lemma_journal_push(j, t);
                    assert(journal_view(self.transactions@) == journal_view(j.push(t)));
                }
                Ok(t)
            },
            Err(e) => Err(e),
        }
    }
    /// Withdraws `amount` from `signer` and journals the transaction.
    pub fn withdraw(&mut self, signer: &str, amount: u64) -> (r: Result<Tx, ApplicationError>)
        requires
            old(self).wf(),
        ensures
            final(self).wf(),
            final(self).matching_engine == old(self).matching_engine,
            match r {
                Ok(t) => withdraw_result(old(self).accounts@, signer@, amount) == Ok::<TxView, ErrorView>(t@)
                    && final(self).accounts@ == apply_tx(old(self).accounts@, t@)
                    && journal_view(final(self).transactions@) == journal_view(old(self).transactions@).push(t@),
                Err(e) => withdraw_result(old(self).accounts@, signer@, amount) == Err::<TxView, ErrorView>(e@)
                    && final(self).accounts@ == old(self).accounts@
                    && final(self).transactions@ == old(self).transactions@,
            },
    {
        let r = self.accounts.withdraw(signer, amount);
        match r {
            Ok(t) => {
                let ghost j = self.transactions@;
                self.transactions.push(t.copied());
                proof {
                    Self::lemma_journal_push(j, t);
                    assert(journal_view(self.transactions@) == journal_view(j.push(t)));
                }
                Ok(t)
            },
            Err(e) => Err(e),
        }
    }

    /// Sends `amount` from `sender` to `recipient` and journals both transactions.
    pub fn send(&mut self, sender: &str, recipient: &str, amount: u64) -> (r: Result<(Tx, Tx), ApplicationError>)
        requires
            old(self).wf(),
        ensures
            final(self).wf(),
            final(self).matching_engine == old(self).matching_engine,
            match r {
                Ok(ts) => send_result(old(self).accounts@, sender@, recipient@, amount) == Ok::<
                    (TxView, TxView),
                    ErrorView,
                >((ts.0@, ts.1@)) && final(self).accounts@ == apply_tx(apply_tx(old(self).accounts@, ts.0@), ts.1@)
                    && journal_view(final(self).transactions@) == journal_view(old(self).transactions@).push(
                    ts.0@,
                ).push(ts.1@),
                Err(e) => send_result(old(self).accounts@, sender@, recipient@, amount) == Err::<
                    (TxView, TxView),
                    ErrorView,
                >(e@) && final(self).accounts@ == old(self).accounts@ && final(self).transactions@
                    == old(self).transactions@,
            },
    {
        let r = self.accounts.send(sender, recipient, amount);
        match r {
            Ok(ts) => {
                let ghost j0 = self.transactions@;
                self.transactions.push(ts.0.copied());
                let ghost j1 = self.transactions@;
                self.transactions.push(ts.1.copied());
                proof {
                    Self::lemma_journal_push(j0, ts.0);
                    assert(journal_view(j1) == journal_view(j0.push(ts.0)));
                    Self::lemma_journal_push(j1, ts.1);
                    assert(journal_view(self.transactions@) == journal_view(j1.push(ts.1)));
                }
                Ok(ts)
            },
            Err(e) => Err(e),
        }
    }

    /// Submits an order: the signer must hold an account, and a Buy must be covered by
    /// `amount * price`; otherwise nothing changes. The engine then processes the order, and
    /// each match is paid for in order, buyer to seller, through `send`. A payment that fails
    /// stops the settlement and its error is returned; the engine and the payments made stand.
    pub fn order(&mut self, order: Order) -> (r: Result<Receipt, ApplicationError>)
        requires
            old(self).wf(),
            old(self).matching_engine.ordinal < u64::MAX,
        ensures
            final(self).wf(),
            !has_account(old(self).accounts@, order.signer@) ==> (r matches Err(e) && e@
                == ErrorView::AccountNotFound(order.signer@) && *final(self) == *old(self)),
            has_account(old(self).accounts@, order.signer@) && order.side == Side::Buy && balance(
                old(self).accounts@,
                order.signer@,
            ) < order.amount * order.price ==> (r matches Err(e) && e@ == ErrorView::AccountUnderFunded(
                order.signer@,
                required_funds(order),
            ) && *final(self) == *old(self)),
            Self::admitted(old(self).accounts@, order) ==> {
                let (v2, txs, failure) = settle(
                    old(self).accounts@,
                    order.side,
                    order.signer@,
                    old(self).matching_engine.sweep(order).0,
                );
                &&& old(self).matching_engine.advanced(order, final(self).matching_engine)
                &&& final(self).accounts@ == v2
                &&& journal_view(final(self).transactions@) == journal_view(old(self).transactions@) + txs
                &&& match failure {
                    None => r matches Ok(receipt) && old(self).matching_engine.processed(
                        order,
                        final(self).matching_engine,
                        receipt,
                    ) && txs == payments(order.side, order.signer@, receipt.matches@) && forall|a: Seq<char>|
                        has_account(old(self).accounts@, a) ==> balance(final(self).accounts@, a) == balance(
                            old(self).accounts@,
                            a,
                        ) + net_receipt(order.side, order.signer@, receipt.matches@, a),
                    Some(fe) => r matches Err(e) && e@ == fe,
                }
            },
    {
        let ghost pre = *self;
        let ghost o = order;
        match self.accounts.balance_of(&order.signer) {
            Err(e) => {
                return Err(e);
            },
            Ok(b) => {
                if order.side == Side::Buy {
                    match order.amount.checked_mul(order.price) {
                        Some(required) => {
                            if *b < required {
                                return Err(ApplicationError::AccountUnderFunded(order.signer.clone(), required));
                            }
                        },
                        None => {
                            return Err(ApplicationError::AccountUnderFunded(order.signer.clone(), u64::MAX));
                        },
                    }
                }
            },
        }
        let side = order.side;
        let signer = order.signer.clone();
        let receipt = match self.matching_engine.process(order) {
            Ok(receipt) => receipt,
            Err(e) => {
                return Err(e);
            },
        };
        let ghost ms = receipt.matches@;
        let ghost v0 = self.accounts@;
        assert(v0 == pre.accounts@);
        assert(signer@ == o.signer@ && side == o.side);
        let ghost j0 = journal_view(self.transactions@);
        let ghost whole = settle(v0, side, signer@, ms);
        let ghost mut done: Seq<TxView> = Seq::empty();
        let mut i: usize = 0;
        proof {
            assert(ms.subrange(0, ms.len() as int) =~= ms);
            assert(j0 + done =~= j0);
        }
        while i < receipt.matches.len()
            invariant
                i <= ms.len(),
                receipt.matches@ == ms,
                self.wf(),
                Self::admitted(pre.accounts@, o),
                o == order,
                pre == *old(self),
                ms == pre.matching_engine.sweep(o).0,
                pre.matching_engine.advanced(o, self.matching_engine),
                pre.matching_engine.processed(o, self.matching_engine, receipt),
                none_signed_by(ms, o.signer@),
                j0 == journal_view(pre.transactions@),
                whole == settle(pre.accounts@, o.side, o.signer@, ms),
                journal_view(self.transactions@) == j0 + done,
                whole == ({
                    let (v2, txs, e) = settle(self.accounts@, side, signer@, ms.subrange(i as int, ms.len() as int));
                    (v2, done + txs, e)
                }),
            decreases ms.len() - i,
        {
            let m = &receipt.matches[i];
            let ghost sub = ms.subrange(i as int, ms.len() as int);
            proof {
                assert(sub[0] == ms[i as int]);
                assert(sub.drop_first() =~= ms.subrange(i + 1, ms.len() as int));
            }
            let value = match m.amount.checked_mul(m.price) {
                Some(x) => x,
                None => {
                    let buyer = match side {
                        Side::Buy => signer.clone(),
                        Side::Sell => m.signer.clone(),
                    };
                    return Err(ApplicationError::AccountUnderFunded(buyer, u64::MAX));
                },
            };
            let sent = match side {
                Side::Buy => self.send(&signer, &m.signer, value),
                Side::Sell => self.send(&m.signer, &signer, value),
            };
            match sent {
                Ok(ts) => {
                    proof {
                        let ghost d = done;
                        done = done + seq![ts.0@, ts.1@];
                        assert(j0 + done =~= (j0 + d).push(ts.0@).push(ts.1@));
                        let (v2, txs, e) = settle(self.accounts@, side, signer@, ms.subrange(i + 1, ms.len() as int));
                        assert(d + (seq![ts.0@, ts.1@] + txs) =~= done + txs);
                    }
                },
                Err(e) => {
                    return Err(e);
                },
            }
            i = i + 1;
        }
        proof {
            assert(done + Seq::<TxView>::empty() =~= done);
            lemma_settle_payments(pre.accounts@, o.side, o.signer@, ms);
            lemma_settle_moves_funds(pre.accounts@, o.side, o.signer@, ms);
        }
        Ok(receipt)
    }

    /// The order passes the checks made before the engine: the signer holds an account and,
    /// for a Buy, its balance covers `amount * price`.
    pub open spec fn admitted(v: Seq<(Seq<char>, u64)>, order: Order) -> bool {
        &&& has_account(v, order.signer@)
        &&& (order.side == Side::Buy ==> balance(v, order.signer@) >= order.amount * order.price)
    }
}

} // verus!
