//! Funds attached to a call, and how amounts are written out.

use vstd::prelude::*;
use crate::contract::ContractError;
use crate::msg::Coin;
use crate::order::same_text;

verus! {

pub open spec fn digit_char(d: nat) -> char {
    if d == 0 {
        '0'
    } else if d == 1 {
        '1'
    } else if d == 2 {
        '2'
    } else if d == 3 {
        '3'
    } else if d == 4 {
        '4'
    } else if d == 5 {
        '5'
    } else if d == 6 {
        '6'
    } else if d == 7 {
        '7'
    } else if d == 8 {
        '8'
    } else {
        '9'
    }
}

/// `n` in decimal, most significant digit first, without leading zeros.
pub open spec fn decimal(n: nat) -> Seq<char>
    decreases n,
{
    if n < 10 {
        seq![digit_char(n)]
    } else {
        decimal(n / 10).push(digit_char(n % 10))
    }
}

/// `n` written in decimal.
///
/// Relies on std's `ToString` (through `Display`) for `u128`, which writes
/// the decimal digits with no sign, padding or leading zeros, and 0 as "0".
#[verifier::external_body]
fn decimal_text(n: u128) -> (r: String)
    ensures
        r@ == decimal(n as nat),
{
    n.to_string()
}

/// An amount and its denomination as one text, such as `50 ukuji`.
pub(crate) fn coin_to_string(amount: u128, denom: &str) -> (r: String)
    ensures
        r@ == decimal(amount as nat) + seq![' '] + denom@,
{
    let digits = decimal_text(amount);
    let spaced = digits.concat(" ");
    proof {
        reveal_strlit(" ");
    }
    spaced.concat(denom)
}

/// The amount of `denom` paid with `balance`, which must hold exactly one
/// coin, of that denomination.
pub fn must_pay_funds(balance: &Vec<Coin>, denom: &str) -> (r: Result<u128, ContractError>)
    ensures
        balance@.len() == 0 <==> r == Err::<u128, ContractError>(ContractError::NoFunds),
        balance@.len() > 1 <==> (r matches Err(ContractError::ExtraDenoms(d)) && d@ == denom@),
        balance@.len() == 1 && balance@[0].denom@ != denom@ <==> (r matches Err(
            ContractError::MissingDenom(d),
        ) && d@ == denom@),
        balance@.len() == 1 && balance@[0].denom@ == denom@ <==> r == Ok::<u128, ContractError>(
            balance@[0].amount,
        ),
{
    if balance.len() == 0 {
        Err(ContractError::NoFunds)
    } else if balance.len() == 1 {
        if same_text(balance[0].denom.as_str(), denom) {
            Ok(balance[0].amount)
        } else {
            Err(ContractError::MissingDenom(String::from_str(denom)))
        }
    } else {
        Err(ContractError::ExtraDenoms(String::from_str(denom)))
    }
}

} // verus!
