use vstd::prelude::*;

verus! {

/// The ways an operation on the ledger or the platform can fail.
#[derive(Clone, Debug, PartialEq, Eq)]
pub enum ApplicationError {
    /// No account is held for this signer.
    AccountNotFound(String),
    /// The signer's balance is below the amount required.
    AccountUnderFunded(String, u64),
    /// Crediting the signer with the amount would overflow the balance.
    AccountOverFunded(String, u64),
}

/// An error as a mathematical value.
pub ghost enum ErrorView {
    AccountNotFound(Seq<char>),
    AccountUnderFunded(Seq<char>, u64),
    AccountOverFunded(Seq<char>, u64),
}

impl View for ApplicationError {
    type V = ErrorView;

    open spec fn view(&self) -> ErrorView {
        match self {
            ApplicationError::AccountNotFound(s) => ErrorView::AccountNotFound(s@),
            ApplicationError::AccountUnderFunded(s, a) => ErrorView::AccountUnderFunded(s@, *a),
            ApplicationError::AccountOverFunded(s, a) => ErrorView::AccountOverFunded(s@, *a),
        }
    }
}

} // verus!
