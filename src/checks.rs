use vstd::prelude::*;

use cw_denom::DenomError;
use cw_utils::PaymentError;

use crate::msg::Coin;

verus! {

pub open spec fn is_ascii_alphabetic(c: char) -> bool {
    ('a' <= c && c <= 'z') || ('A' <= c && c <= 'Z')
}

pub open spec fn is_ascii_digit(c: char) -> bool {
    '0' <= c && c <= '9'
}

/// A character allowed after the first one of a native denomination.
pub open spec fn is_denom_char(c: char) -> bool {
    is_ascii_alphabetic(c) || is_ascii_digit(c) || c == '/' || c == ':' || c == '.' || c == '_' || c
        == '-'
}

/// The SDK's rule for native denominations: `[a-zA-Z][a-zA-Z0-9/:._-]{2,127}`.
pub open spec fn valid_native_denom(d: Seq<char>) -> bool {
    &&& 3 <= d.len() <= 128
    &&& is_ascii_alphabetic(d[0])
    &&& forall|i: int| 1 <= i < d.len() ==> is_denom_char(#[trigger] d[i])
}

/// Relies on cw_denom::validate_native_denom, which accepts a denomination
/// exactly where it has between 3 and 128 bytes, an ASCII letter first and
/// only ASCII letters, digits and `/:._-` after it. Every character that
/// rule allows is one byte long, so the byte count is the character count.
#[verifier::external_body]
pub(crate) fn check_native_denom(denom: &String) -> (r: Result<(), DenomError>)
    ensures
        r is Ok <==> valid_native_denom(denom@),
{
    cw_denom::validate_native_denom(denom.clone()).map(|_| ())
}

/// Relies on cw_utils::nonpayable, which refuses a message exactly where it
/// carries funds.
#[verifier::external_body]
pub(crate) fn check_nonpayable(sender: &String, funds: &Vec<Coin>) -> (r: Result<(), PaymentError>)
    ensures
        r is Ok <==> funds@.len() == 0,
{
    let info = cosmwasm_std::MessageInfo {
        sender: cosmwasm_std::Addr::unchecked(sender.as_str()),
        funds: funds.iter().map(
            |c| cosmwasm_std::Coin { denom: c.denom.clone(), amount: cosmwasm_std::Uint128::new(c.amount) },
        ).collect(),
    };
    cw_utils::nonpayable(&info)
}

} // verus!
