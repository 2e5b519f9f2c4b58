//! Currency identifiers for the surrounding asset-transfer layer: the
//! local balances instance, or a token registered under a byte key.  The
//! transfer adapters themselves live outside the beacon; only this
//! identifier and its byte form are part of the library.

use vstd::prelude::*;

verus! {

/// One currency: the native instance, or a registered token.
#[derive(Clone, PartialEq, Eq, Debug)]
pub enum CurrencyId {
    /// The local balances instance.
    Native,
    /// A token registered under its byte key.
    Token(Vec<u8>),
}

/// The byte form of a currency identifier: the native currency's ticker,
/// or the token's own key.
pub open spec fn currency_bytes(c: CurrencyId) -> Seq<u8> {
    match c {
        CurrencyId::Native => seq![0x47u8, 0x4cu8, 0x4du8, 0x52u8],
        CurrencyId::Token(t) => t@,
    }
}

impl CurrencyId {
    /// Turns the identifier into its byte form; the native currency is
    /// written as its ticker "GLMR".
    pub fn into_bytes(self) -> (r: Vec<u8>)
        ensures
            r@ == currency_bytes(self),
    {
        match self {
            CurrencyId::Native => {
                let mut v: Vec<u8> = Vec::new();
                v.push(0x47);
                v.push(0x4c);
                v.push(0x4d);
                v.push(0x52);
                proof {
                    assert(v@ =~= seq![0x47u8, 0x4cu8, 0x4du8, 0x52u8]);
                }
                v
            },
            CurrencyId::Token(t) => t,
        }
    }
}

} // verus!
