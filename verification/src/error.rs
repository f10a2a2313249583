//! The errors of the exchange and the classes they fall into.

use vstd::prelude::*;

verus! {

/// The ways a balance movement can fail.
#[derive(Clone, Copy, Debug, PartialEq, Eq, Structural)]
pub enum SettlementError {
    /// The paying side of a movement holds less than the amount.
    InsufficientFunds,
    /// An amount or a balance would leave the range of `u64`.
    ArithmeticOverflow,
    /// An account reference names no record of the ledger.
    UnknownAccount,
}

/// The coarse classes into which every failure falls.
#[derive(Clone, Copy, Debug, PartialEq, Eq, Structural)]
pub enum ErrorKind {
    /// Malformed input, wrong market or unauthorized signer.
    Validation,
    /// The instruction does not fit the current state.
    State,
    /// An arithmetic result left the range of `u64`.
    Arithmetic,
    /// A balance does not cover the amount asked of it.
    InsufficientFunds,
}

/// Every failure an instruction can end in. A failed instruction leaves the
/// state as it found it.
#[derive(Clone, Copy, Debug, PartialEq, Eq, Structural)]
pub enum DexError {
    /// A limit price of zero, or none, on an order that needs one.
    InvalidPrice,
    /// A quantity of zero, or a remaining quantity above the original one.
    InvalidQuantity,
    /// The market named is not the market of the book supplied.
    WrongMarket,
    /// The signer is not authorized for the account, or does not own the order.
    Unauthorized,
    /// The market has not been initialized, or has been closed.
    MarketNotInitialized,
    /// The account reference names no record of the ledger.
    UnknownAccount,
    /// A stored state is not one that instructions leave behind.
    InvalidState,
    /// The market has been initialized before.
    MarketAlreadyInitialized,
    /// The book already holds an order with this id.
    DuplicateOrderId,
    /// The book holds no open order with this id.
    OrderNotFound,
    /// The market still has resting orders.
    MarketNotEmpty,
    /// An amount, a balance or a counter would leave the range of `u64`.
    ArithmeticOverflow,
    /// An available or reserved balance does not cover the amount.
    InsufficientFunds,
}

impl DexError {
    /// The class of this error.
    pub open spec fn spec_kind(self) -> ErrorKind {
        match self {
            DexError::InvalidPrice
            | DexError::InvalidQuantity
            | DexError::WrongMarket
            | DexError::Unauthorized
            | DexError::MarketNotInitialized
            | DexError::UnknownAccount
            | DexError::InvalidState => ErrorKind::Validation,
            DexError::MarketAlreadyInitialized
            | DexError::DuplicateOrderId
            | DexError::OrderNotFound
            | DexError::MarketNotEmpty => ErrorKind::State,
            DexError::ArithmeticOverflow => ErrorKind::Arithmetic,
            DexError::InsufficientFunds => ErrorKind::InsufficientFunds,
        }
    }

    /// The class of this error.
    #[verifier::when_used_as_spec(spec_kind)]
    pub fn kind(self) -> (k: ErrorKind)
        ensures
            k == self.spec_kind(),
    {
        match self {
            DexError::InvalidPrice
            | DexError::InvalidQuantity
            | DexError::WrongMarket
            | DexError::Unauthorized
            | DexError::MarketNotInitialized
            | DexError::UnknownAccount
            | DexError::InvalidState => ErrorKind::Validation,
            DexError::MarketAlreadyInitialized
            | DexError::DuplicateOrderId
            | DexError::OrderNotFound
            | DexError::MarketNotEmpty => ErrorKind::State,
            DexError::ArithmeticOverflow => ErrorKind::Arithmetic,
            DexError::InsufficientFunds => ErrorKind::InsufficientFunds,
        }
    }

    /// The instruction-level error that stands for a failed balance movement.
    pub open spec fn spec_from_settlement(e: SettlementError) -> DexError {
        match e {
            SettlementError::InsufficientFunds => DexError::InsufficientFunds,
            SettlementError::ArithmeticOverflow => DexError::ArithmeticOverflow,
            SettlementError::UnknownAccount => DexError::UnknownAccount,
        }
    }

    /// The instruction-level error that stands for a failed balance movement.
    #[verifier::when_used_as_spec(spec_from_settlement)]
    pub fn from_settlement(e: SettlementError) -> (r: DexError)
        ensures
            r == DexError::spec_from_settlement(e),
    {
        match e {
            SettlementError::InsufficientFunds => DexError::InsufficientFunds,
            SettlementError::ArithmeticOverflow => DexError::ArithmeticOverflow,
            SettlementError::UnknownAccount => DexError::UnknownAccount,
        }
    }

    /// The name of the error.
    pub open spec fn spec_name(self) -> Seq<char> {
        match self {
            DexError::InvalidPrice => "InvalidPrice"@,
            DexError::InvalidQuantity => "InvalidQuantity"@,
            DexError::WrongMarket => "WrongMarket"@,
            DexError::Unauthorized => "Unauthorized"@,
            DexError::MarketNotInitialized => "MarketNotInitialized"@,
            DexError::UnknownAccount => "UnknownAccount"@,
            DexError::InvalidState => "InvalidState"@,
            DexError::MarketAlreadyInitialized => "MarketAlreadyInitialized"@,
            DexError::DuplicateOrderId => "DuplicateOrderId"@,
            DexError::OrderNotFound => "OrderNotFound"@,
            DexError::MarketNotEmpty => "MarketNotEmpty"@,
            DexError::ArithmeticOverflow => "ArithmeticOverflow"@,
            DexError::InsufficientFunds => "InsufficientFunds"@,
        }
    }

    /// The name of the error, as it is shown to the caller.
    pub fn name(self) -> (s: &'static str)
        ensures
            s@ == self.spec_name(),
    {
        match self {
            DexError::InvalidPrice => "InvalidPrice",
            DexError::InvalidQuantity => "InvalidQuantity",
            DexError::WrongMarket => "WrongMarket",
            DexError::Unauthorized => "Unauthorized",
            DexError::MarketNotInitialized => "MarketNotInitialized",
            DexError::UnknownAccount => "UnknownAccount",
            DexError::InvalidState => "InvalidState",
            DexError::MarketAlreadyInitialized => "MarketAlreadyInitialized",
            DexError::DuplicateOrderId => "DuplicateOrderId",
            DexError::OrderNotFound => "OrderNotFound",
            DexError::MarketNotEmpty => "MarketNotEmpty",
            DexError::ArithmeticOverflow => "ArithmeticOverflow",
            DexError::InsufficientFunds => "InsufficientFunds",
        }
    }
}

} // verus!
