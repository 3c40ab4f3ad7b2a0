use vstd::prelude::*;

use crate::denom::{TokenId, TokenIdView};
use crate::state::{Payment, PaymentView};

verus! {

pub struct InstantiateMsg {
    /// The owner can change the owner and the output address.
    pub owner: Option<String>,
    /// The output address is where all funds are sent.
    pub output: String,
}

/// What a token contract forwards along with the tokens it sends.
#[derive(Clone, Debug, PartialEq, Eq)]
pub enum Cw20ReceiverMsg {
    Pay { id: String },
}

#[derive(Clone, Debug, PartialEq, Eq)]
pub struct OutputResponse {
    pub output: String,
}

/// A payment together with its number within its receipt.
#[derive(Clone, Debug, PartialEq, Eq)]
pub struct ReceiptPaymentWithoutId {
    pub receipt_payment_id: u64,
    pub payment: Payment,
}

/// A payment together with its receipt and its number within that receipt.
#[derive(Clone, Debug, PartialEq, Eq)]
pub struct ReceiptPayment {
    pub receipt_id: String,
    pub receipt_payment_id: u64,
    pub payment: Payment,
}

pub struct ReceiptPaymentView {
    pub receipt_id: Seq<char>,
    pub receipt_payment_id: u64,
    pub payment: PaymentView,
}

impl View for ReceiptPayment {
    type V = ReceiptPaymentView;

    open spec fn view(&self) -> ReceiptPaymentView {
        ReceiptPaymentView {
            receipt_id: self.receipt_id@,
            receipt_payment_id: self.receipt_payment_id,
            payment: self.payment@,
        }
    }
}

impl ReceiptPayment {
    pub fn duplicate(&self) -> (r: ReceiptPayment)
        ensures
            r@ == self@,
    {
        ReceiptPayment {
            receipt_id: self.receipt_id.clone(),
            receipt_payment_id: self.receipt_payment_id,
            payment: self.payment.duplicate(),
        }
    }
}

/// The cumulative amount paid in one token.
#[derive(Clone, Debug, PartialEq, Eq)]
pub struct Total {
    pub denom: TokenId,
    pub amount: u128,
}

impl View for Total {
    type V = (TokenIdView, u128);

    open spec fn view(&self) -> (TokenIdView, u128) {
        (self.denom@, self.amount)
    }
}

#[derive(Clone, Debug, PartialEq, Eq)]
pub struct ListPaymentsResponse {
    pub payments: Vec<ReceiptPayment>,
}

#[derive(Clone, Debug, PartialEq, Eq)]
pub struct ListPaymentsToIdResponse {
    pub payments: Vec<ReceiptPaymentWithoutId>,
}

#[derive(Clone, Debug, PartialEq, Eq)]
pub struct ListTotalsPaidToIdResponse {
    pub totals: Vec<Total>,
}

#[derive(Clone, Debug, PartialEq, Eq)]
pub struct ListIdsForPayerResponse {
    pub ids: Vec<String>,
}

#[derive(Clone, Debug, PartialEq, Eq)]
pub struct ListTotalsPaidByPayerResponse {
    pub totals: Vec<Total>,
}

/// An instruction to move `amount` of `denom` to `recipient`; the ledger
/// builds it and hands it back, it never moves value itself.
#[derive(Clone, Debug, PartialEq, Eq)]
pub struct TransferInstruction {
    pub denom: TokenId,
    pub amount: u128,
    pub recipient: String,
}

impl View for TransferInstruction {
    type V = (TokenIdView, u128, Seq<char>);

    open spec fn view(&self) -> (TokenIdView, u128, Seq<char>) {
        (self.denom@, self.amount, self.recipient@)
    }
}

} // verus!

verus! {

/// An amount of a native denomination sent along with a message.
#[derive(Clone, Debug, PartialEq, Eq)]
pub struct Coin {
    pub denom: String,
    pub amount: u128,
}

impl View for Coin {
    type V = (Seq<char>, u128);

    open spec fn view(&self) -> (Seq<char>, u128) {
        (self.denom@, self.amount)
    }
}

} // verus!
