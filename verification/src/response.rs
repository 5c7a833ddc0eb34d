//! The reply to a submission: what is left unfilled of the order, as a JSON
//! number.

use crate::decimal::decimal_digits;
use vstd::prelude::*;

verus! {

#[verifier::external_type_specification]
#[verifier::external_body]
pub struct ExJsonError(serde_json::Error);

/// `serde_json::to_string` on a `u64`. It gives a text for every number: it
/// writes into a byte vector, and neither the number nor the vector can
/// refuse. The text is the number as JSON writes an unsigned integer: its
/// decimal digits, with no leading zero but for zero itself.
#[verifier::external_body]
fn json_of_number(number: u64) -> (encoded: Result<String, serde_json::Error>)
    ensures
        encoded.is_ok(),
        encoded matches Ok(text) ==> text@ == decimal_digits(number as nat),
{
    serde_json::to_string(&number)
}

/// The reply for what the encoder gave: its text, or none where it refused.
pub fn reply_of(encoded: Result<String, serde_json::Error>) -> (reply: Option<String>)
    ensures
        match encoded {
            Ok(text) => reply == Some(text),
            Err(_) => reply.is_none(),
        },
{
    match encoded {
        Ok(text) => Some(text),
        Err(_) => None,
    }
}

/// The reply to a submission of which `remaining` is left unfilled: always
/// there, and the number in decimal digits.
pub fn encode_reply(remaining: u64) -> (reply: Option<String>)
    ensures
        reply.is_some(),
        reply matches Some(text) ==> text@ == decimal_digits(remaining as nat),
{
    reply_of(json_of_number(remaining))
}

} // verus!
