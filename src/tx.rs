use vstd::prelude::*;

verus! {

/// One balance change, as the ledger reports it and the journal keeps it.
#[derive(Clone, Debug, PartialEq, Eq)]
pub enum Tx {
    Deposit { account: String, amount: u64 },
    Withdraw { account: String, amount: u64 },
}

/// A transaction as a mathematical value.
pub ghost enum TxView {
    Deposit(Seq<char>, u64),
    Withdraw(Seq<char>, u64),
}

impl View for Tx {
    type V = TxView;

    open spec fn view(&self) -> TxView {
        match self {
            Tx::Deposit { account, amount } => TxView::Deposit(account@, *amount),
            Tx::Withdraw { account, amount } => TxView::Withdraw(account@, *amount),
        }
    }
}

impl Tx {
    /// A field-by-field copy.
    pub fn copied(&self) -> (r: Tx)
        ensures
            r@ == self@,
    {
        match self {
            Tx::Deposit { account, amount } => Tx::Deposit { account: account.clone(), amount: *amount },
            Tx::Withdraw { account, amount } => Tx::Withdraw { account: account.clone(), amount: *amount },
        }
    }
}

/// The views of a sequence of transactions.
pub open spec fn journal_view(j: Seq<Tx>) -> Seq<TxView> {
    j.map_values(|t: Tx| t@)
}

} // verus!
