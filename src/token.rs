//! Tokens: an address with optional metadata and the two flags that path
//! search reads.
use vstd::prelude::*;
use crate::primitives::Address;

verus! {

#[derive(Debug)]
pub struct Token {
    pub address: Address,
    pub symbol: Option<String>,
    pub name: Option<String>,
    pub decimals: Option<u8>,
    /// Eligible to anchor a swap cycle.
    pub basic: bool,
    /// Eligible as an intermediate pivot.
    pub middle: bool,
}

/// What the path search and the market read of a token.
pub struct TokenView {
    pub address: Address,
    pub decimals: Option<u8>,
    pub basic: bool,
    pub middle: bool,
}

impl View for Token {
    type V = TokenView;

    open spec fn view(&self) -> TokenView {
        TokenView { address: self.address, decimals: self.decimals, basic: self.basic, middle: self.middle }
    }
}

impl Token {
    /// A token with no metadata, neither basic nor middle.
    pub fn new(address: Address) -> (r: Token)
        ensures
            r@ == (TokenView { address, decimals: None, basic: false, middle: false }),
    {
        Token { address, symbol: None, name: None, decimals: None, basic: false, middle: false }
    }

    pub fn new_with_data(
        address: Address,
        symbol: Option<String>,
        name: Option<String>,
        decimals: Option<u8>,
        basic: bool,
        middle: bool,
    ) -> (r: Token)
        ensures
            r@ == (TokenView { address, decimals, basic, middle }),
            r.symbol == symbol,
            r.name == name,
    {
        Token { address, symbol, name, decimals, basic, middle }
    }

    pub fn get_address(&self) -> (r: Address)
        ensures
            r == self.address,
    {
        self.address
    }

    pub fn is_basic(&self) -> (r: bool)
        ensures
            r == self.basic,
    {
        self.basic
    }

    pub fn is_middle(&self) -> (r: bool)
        ensures
            r == self.middle,
    {
        self.middle
    }

    pub fn get_decimals(&self) -> (r: Option<u8>)
        ensures
            r == self.decimals,
    {
        self.decimals
    }

    /// A copy of the token, metadata included.
    pub fn duplicate(&self) -> (r: Token)
        ensures
            r@ == self@,
    {
        Token {
            address: self.address,
            symbol: self.symbol.clone(),
            name: self.name.clone(),
            decimals: self.decimals,
            basic: self.basic,
            middle: self.middle,
        }
    }
}

} // verus!
