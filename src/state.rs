use vstd::prelude::*;

use crate::denom::{TokenId, TokenIdView};

verus! {

/// The block in which a payment was made.
#[derive(Clone, Debug, PartialEq, Eq)]
pub struct BlockContext {
    pub height: u64,
    /// Block time, in nanoseconds since the Unix epoch.
    pub time_nanos: u64,
    pub chain_id: String,
}

pub struct BlockContextView {
    pub height: u64,
    pub time_nanos: u64,
    pub chain_id: Seq<char>,
}

impl View for BlockContext {
    type V = BlockContextView;

    open spec fn view(&self) -> BlockContextView {
        BlockContextView { height: self.height, time_nanos: self.time_nanos, chain_id: self.chain_id@ }
    }
}

impl BlockContext {
    pub fn duplicate(&self) -> (r: BlockContext)
        ensures
            r@ == self@,
    {
        BlockContext { height: self.height, time_nanos: self.time_nanos, chain_id: self.chain_id.clone() }
    }
}

/// One recorded payment. Never changed once recorded.
#[derive(Clone, Debug, PartialEq, Eq)]
pub struct Payment {
    pub payer: String,
    pub block: BlockContext,
    pub denom: TokenId,
    pub amount: u128,
}

pub struct PaymentView {
    pub payer: Seq<char>,
    pub block: BlockContextView,
    pub denom: TokenIdView,
    pub amount: u128,
}

impl View for Payment {
    type V = PaymentView;

    open spec fn view(&self) -> PaymentView {
        PaymentView { payer: self.payer@, block: self.block@, denom: self.denom@, amount: self.amount }
    }
}

impl Payment {
    pub fn duplicate(&self) -> (r: Payment)
        ensures
            r@ == self@,
    {
        Payment {
            payer: self.payer.clone(),
            block: self.block.duplicate(),
            denom: self.denom.duplicate(),
            amount: self.amount,
        }
    }
}

} // verus!
