use vstd::prelude::*;

use cw_denom::DenomError;
use cw_utils::PaymentError;

verus! {

/// cw_denom's error for a malformed denomination, carried as it is.
#[verifier::external_type_specification]
#[verifier::external_body]
pub struct ExDenomError(DenomError);

/// cw_utils' error for funds that a message may not carry, carried as it is.
#[verifier::external_type_specification]
#[verifier::external_body]
pub struct ExPaymentError(PaymentError);

/// Why a request was refused.
#[derive(Debug, PartialEq)]
pub enum ContractError {
    /// Funds came with a request that takes none.
    PaymentError(PaymentError),
    /// A native denomination is malformed.
    Denom(DenomError),
    /// A native deposit came without funds.
    MissingPayment,
    /// The receipt belongs to another payer.
    UnauthorizedPayer,
    /// A payment counter or a total would pass the largest value of its type.
    Overflow,
}

} // verus!
