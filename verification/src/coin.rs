//! A small coin enumeration with a verified value lookup.

use vstd::prelude::*;

verus! {

/// The coins the lookup knows about.
#[derive(Clone, Copy, Debug, PartialEq, Eq, Structural)]
pub enum Coin {
    Penny,
    Nickle,
    Dime,
    Quarter,
}

/// The face value, in cents, assigned to each coin.
pub open spec fn cents_of(coin: Coin) -> int {
    match coin {
        Coin::Penny => 1,
        Coin::Nickle => 5,
        Coin::Dime => 10,
        Coin::Quarter => 15,
    }
}

/// Looks up the value of `coin` in cents.
pub fn value_in_cents(coin: Coin) -> (v: i8)
    ensures
        v == cents_of(coin),
{
    match coin {
        Coin::Penny => 1,
        Coin::Nickle => 5,
        Coin::Dime => 10,
        Coin::Quarter => 15,
    }
}

} // verus!
