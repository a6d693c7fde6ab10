//! The default tokens of the chains that the engine knows.
use vstd::prelude::*;
use crate::error::LoomError;
use crate::primitives::Address;
use crate::token::{Token, TokenView};
use crate::market::{Market, lemma_token_kept, lemma_token_stays, with_tokens};

verus! {

/// The chains with a default token list, and the rest.
#[derive(Clone, Copy, Debug, PartialEq, Eq, Structural)]
pub enum ChainName {
    Mainnet,
    Arbitrum,
    Base,
    Avalanche,
    BinanceSmartChain,
    /// A named chain without a default token list.
    OtherNamed,
    /// An id that names no chain.
    Unnamed,
}

/// Which of the listed chains the id is the number of.
pub open spec fn listed_chain(id: u64) -> Option<ChainName> {
    if id == 1 {
        Some(ChainName::Mainnet)
    } else if id == 42161 {
        Some(ChainName::Arbitrum)
    } else if id == 8453 {
        Some(ChainName::Base)
    } else if id == 43114 {
        Some(ChainName::Avalanche)
    } else if id == 56 {
        Some(ChainName::BinanceSmartChain)
    } else {
        None
    }
}

/// Relies on alloy_chains::Chain::from_id and Chain::named: an id is named
/// exactly when it is the number of a `NamedChain` variant, and each
/// variant has its own number (Mainnet 1, Arbitrum 42161, Base 8453,
/// Avalanche 43114, BinanceSmartChain 56).
#[verifier::external_body]
fn chain_name(id: u64) -> (r: ChainName)
    ensures
        listed_chain(id) matches Some(c) ==> r == c,
        listed_chain(id) is None ==> (r == ChainName::OtherNamed || r == ChainName::Unnamed),
{
    match alloy_chains::Chain::from_id(id).named() {
        Some(alloy_chains::NamedChain::Mainnet) => ChainName::Mainnet,
        Some(alloy_chains::NamedChain::Arbitrum) => ChainName::Arbitrum,
        Some(alloy_chains::NamedChain::Base) => ChainName::Base,
        Some(alloy_chains::NamedChain::Avalanche) => ChainName::Avalanche,
        Some(alloy_chains::NamedChain::BinanceSmartChain) => ChainName::BinanceSmartChain,
        Some(_) => ChainName::OtherNamed,
        None => ChainName::Unnamed,
    }
}

/// The default tokens of a chain, in the order they are added.
pub open spec fn default_tokens(c: ChainName) -> Seq<TokenView> {
    match c {
        ChainName::Mainnet => seq![TokenView { address: Address { hi: 0xc02aaa39, mid: 0xb223fe8d0a0e5c4f, lo: 0x27ead9083c756cc2 }, decimals: Some(18u8), basic: true, middle: false }, TokenView { address: Address { hi: 0xa0b86991, mid: 0xc6218b36c1d19d4a, lo: 0x2e9eb0ce3606eb48 }, decimals: Some(6u8), basic: true, middle: false }, TokenView { address: Address { hi: 0xdac17f95, mid: 0x8d2ee523a2206206, lo: 0x994597c13d831ec7 }, decimals: Some(6u8), basic: true, middle: false }, TokenView { address: Address { hi: 0x6b175474, mid: 0xe89094c44da98b95, lo: 0x4eedeac495271d0f }, decimals: Some(18u8), basic: true, middle: false }, TokenView { address: Address { hi: 0x2260fac5, mid: 0xe5542a773aa44fbc, lo: 0xfedf7c193bc2c599 }, decimals: Some(8u8), basic: true, middle: false }, TokenView { address: Address { hi: 0x6c3f90f0, mid: 0x43a72fa612cbac81, lo: 0x15ee7e52bde6e490 }, decimals: Some(18u8), basic: false, middle: true }],
        ChainName::Arbitrum => seq![TokenView { address: Address { hi: 0x82af4944, mid: 0x7d8a07e3bd95bd0d, lo: 0x56f35241523fbab1 }, decimals: Some(18u8), basic: true, middle: false }, TokenView { address: Address { hi: 0x2f2a2543, mid: 0xb76a4166549f7aab, lo: 0x2e75bef0aefc5b0f }, decimals: Some(8u8), basic: true, middle: false }, TokenView { address: Address { hi: 0xaf88d065, mid: 0xe77c8cc2239327c5, lo: 0xedb3a432268e5831 }, decimals: Some(6u8), basic: true, middle: false }, TokenView { address: Address { hi: 0xfd086bc7, mid: 0xcd5c481dcc9c85eb, lo: 0xe478a1c0b69fcbb9 }, decimals: Some(6u8), basic: true, middle: false }, TokenView { address: Address { hi: 0x6b175474, mid: 0xe89094c44da98b95, lo: 0x4eedeac495271d0f }, decimals: Some(18u8), basic: true, middle: false }],
        ChainName::Base => seq![TokenView { address: Address { hi: 0x42000000, mid: 0x0000000000000000, lo: 0x0000000000000006 }, decimals: Some(18u8), basic: true, middle: false }, TokenView { address: Address { hi: 0x833589fc, mid: 0xd6edb6e08f4c7c32, lo: 0xd4f71b54bda02913 }, decimals: Some(6u8), basic: true, middle: false }],
        ChainName::Avalanche => seq![TokenView { address: Address { hi: 0xb31f66aa, mid: 0x3c1e785363f0875a, lo: 0x1b74e27b85fd66c7 }, decimals: Some(18u8), basic: true, middle: false }, TokenView { address: Address { hi: 0xb97ef9ef, mid: 0x8734c71904d8002f, lo: 0x8b6bc66dd9c48a6e }, decimals: Some(6u8), basic: true, middle: false }, TokenView { address: Address { hi: 0x9702230a, mid: 0x8ea53601f5cd2dc0, lo: 0x0fdbc13d4df4a8c7 }, decimals: Some(6u8), basic: true, middle: false }, TokenView { address: Address { hi: 0xd586e7f8, mid: 0x44cea2f87f501526, lo: 0x65bcbc2c279d8d70 }, decimals: Some(18u8), basic: true, middle: false }, TokenView { address: Address { hi: 0xd24c2ad0, mid: 0x96400b6fbcd2ad8b, lo: 0x24e7acbc21a1da64 }, decimals: Some(18u8), basic: true, middle: false }, TokenView { address: Address { hi: 0x50b75456, mid: 0x27a5162f82a992c3, lo: 0x3b87adc75187b52b }, decimals: Some(8u8), basic: true, middle: false }, TokenView { address: Address { hi: 0x49d5c2bd, mid: 0xffac6ce2bfdb6640, lo: 0xf4f80f226bc10bab }, decimals: Some(18u8), basic: true, middle: false }],
        ChainName::BinanceSmartChain => seq![TokenView { address: Address { hi: 0xbb4cdb9c, mid: 0xbd36b01bd1cbaebf, lo: 0x2de08d9173bc095c }, decimals: Some(18u8), basic: true, middle: false }, TokenView { address: Address { hi: 0x8ac76a51, mid: 0xcc950d9822d68b83, lo: 0xfe1ad97b32cd580d }, decimals: Some(18u8), basic: true, middle: false }, TokenView { address: Address { hi: 0x55d39832, mid: 0x6f99059ff7754852, lo: 0x46999027b3197955 }, decimals: Some(18u8), basic: true, middle: false }, TokenView { address: Address { hi: 0x1af3f329, mid: 0xe8be154074d8769d, lo: 0x1ffa4ee058b1dbc3 }, decimals: Some(18u8), basic: true, middle: false }, TokenView { address: Address { hi: 0x2170ed08, mid: 0x80ac9a755fd29b26, lo: 0x88956bd959f933f8 }, decimals: Some(18u8), basic: true, middle: false }, TokenView { address: Address { hi: 0x7130d2a1, mid: 0x2b9bcbfae4f2634d, lo: 0x864a1ee1ce3ead9c }, decimals: Some(8u8), basic: true, middle: false }],
        _ => Seq::empty(),
    }
}

fn default_token(address: Address, symbol: &str, decimals: u8, basic: bool, middle: bool) -> (r: Token)
    ensures
        r@ == (TokenView { address, decimals: Some(decimals), basic, middle }),
{
    Token::new_with_data(address, Some(symbol.to_owned()), None, Some(decimals), basic, middle)
}

fn default_tokens_of(c: ChainName) -> (r: Vec<Token>)
    ensures
        r@.map_values(|t: Token| t@) == default_tokens(c),
{
    let mut v: Vec<Token> = Vec::new();
    match c {
        ChainName::Mainnet => {
            v.push(default_token(Address { hi: 0xc02aaa39, mid: 0xb223fe8d0a0e5c4f, lo: 0x27ead9083c756cc2 }, "WETH", 18, true, false));
            v.push(default_token(Address { hi: 0xa0b86991, mid: 0xc6218b36c1d19d4a, lo: 0x2e9eb0ce3606eb48 }, "USDC", 6, true, false));
            v.push(default_token(Address { hi: 0xdac17f95, mid: 0x8d2ee523a2206206, lo: 0x994597c13d831ec7 }, "USDT", 6, true, false));
            v.push(default_token(Address { hi: 0x6b175474, mid: 0xe89094c44da98b95, lo: 0x4eedeac495271d0f }, "DAI", 18, true, false));
            v.push(default_token(Address { hi: 0x2260fac5, mid: 0xe5542a773aa44fbc, lo: 0xfedf7c193bc2c599 }, "WBTC", 8, true, false));
            v.push(default_token(Address { hi: 0x6c3f90f0, mid: 0x43a72fa612cbac81, lo: 0x15ee7e52bde6e490 }, "3Crv", 18, false, true));
        },
        ChainName::Arbitrum => {
            v.push(default_token(Address { hi: 0x82af4944, mid: 0x7d8a07e3bd95bd0d, lo: 0x56f35241523fbab1 }, "WETH", 18, true, false));
            v.push(default_token(Address { hi: 0x2f2a2543, mid: 0xb76a4166549f7aab, lo: 0x2e75bef0aefc5b0f }, "WBTC", 8, true, false));
            v.push(default_token(Address { hi: 0xaf88d065, mid: 0xe77c8cc2239327c5, lo: 0xedb3a432268e5831 }, "USDC", 6, true, false));
            v.push(default_token(Address { hi: 0xfd086bc7, mid: 0xcd5c481dcc9c85eb, lo: 0xe478a1c0b69fcbb9 }, "USDT", 6, true, false));
            v.push(default_token(Address { hi: 0x6b175474, mid: 0xe89094c44da98b95, lo: 0x4eedeac495271d0f }, "DAI", 18, true, false));
        },
        ChainName::Base => {
            v.push(default_token(Address { hi: 0x42000000, mid: 0x0000000000000000, lo: 0x0000000000000006 }, "WETH", 18, true, false));
            v.push(default_token(Address { hi: 0x833589fc, mid: 0xd6edb6e08f4c7c32, lo: 0xd4f71b54bda02913 }, "USDC", 6, true, false));
        },
        ChainName::Avalanche => {
            v.push(default_token(Address { hi: 0xb31f66aa, mid: 0x3c1e785363f0875a, lo: 0x1b74e27b85fd66c7 }, "WAVAX", 18, true, false));
            v.push(default_token(Address { hi: 0xb97ef9ef, mid: 0x8734c71904d8002f, lo: 0x8b6bc66dd9c48a6e }, "USDC", 6, true, false));
            v.push(default_token(Address { hi: 0x9702230a, mid: 0x8ea53601f5cd2dc0, lo: 0x0fdbc13d4df4a8c7 }, "USDT", 6, true, false));
            v.push(default_token(Address { hi: 0xd586e7f8, mid: 0x44cea2f87f501526, lo: 0x65bcbc2c279d8d70 }, "DAI", 18, true, false));
            v.push(default_token(Address { hi: 0xd24c2ad0, mid: 0x96400b6fbcd2ad8b, lo: 0x24e7acbc21a1da64 }, "FRAX", 18, true, false));
            v.push(default_token(Address { hi: 0x50b75456, mid: 0x27a5162f82a992c3, lo: 0x3b87adc75187b52b }, "WBTC", 8, true, false));
            v.push(default_token(Address { hi: 0x49d5c2bd, mid: 0xffac6ce2bfdb6640, lo: 0xf4f80f226bc10bab }, "WETH", 18, true, false));
        },
        ChainName::BinanceSmartChain => {
            v.push(default_token(Address { hi: 0xbb4cdb9c, mid: 0xbd36b01bd1cbaebf, lo: 0x2de08d9173bc095c }, "WBNB", 18, true, false));
            v.push(default_token(Address { hi: 0x8ac76a51, mid: 0xcc950d9822d68b83, lo: 0xfe1ad97b32cd580d }, "USDC", 18, true, false));
            v.push(default_token(Address { hi: 0x55d39832, mid: 0x6f99059ff7754852, lo: 0x46999027b3197955 }, "USDT", 18, true, false));
            v.push(default_token(Address { hi: 0x1af3f329, mid: 0xe8be154074d8769d, lo: 0x1ffa4ee058b1dbc3 }, "DAI", 18, true, false));
            v.push(default_token(Address { hi: 0x2170ed08, mid: 0x80ac9a755fd29b26, lo: 0x88956bd959f933f8 }, "WETH", 18, true, false));
            v.push(default_token(Address { hi: 0x7130d2a1, mid: 0x2b9bcbfae4f2634d, lo: 0x864a1ee1ce3ead9c }, "WBTC", 8, true, false));
        },
        _ => {},
    }
    assert(v@.map_values(|t: Token| t@) =~= default_tokens(c));
    v
}

/// Adds the default tokens of chain `chain_id` to the market; a chain
/// without a default list fails with `NoNamedChain` when the id names no
/// chain, else `ChainTokensNotLoaded`, and leaves the market as it is.
pub fn add_default_tokens_to_market(market: &mut Market, chain_id: u64) -> (r: Result<(), LoomError>)
    requires
        old(market).wf(),
    ensures
        final(market).wf(),
        listed_chain(chain_id) is None ==> (r == Err::<(), LoomError>(LoomError::NoNamedChain) || r == Err::<(), LoomError>(
            LoomError::ChainTokensNotLoaded,
        )) && *final(market) == *old(market),
        listed_chain(chain_id) matches Some(c) ==> final(market).tokens_view() == with_tokens(old(market).tokens_view(), default_tokens(c)),
        listed_chain(chain_id) matches Some(c) ==> r is Ok && forall|k: int|
            0 <= k < default_tokens(c).len() ==> final(market).has_token(#[trigger] default_tokens(c)[k].address)
                && (default_tokens(c)[k].basic ==> final(market).token_basic(default_tokens(c)[k].address)),
        final(market).pools_view() == old(market).pools_view(),
        final(market).edges_view() == old(market).edges_view(),
        final(market).paths_view() == old(market).paths_view(),
{
    let c = chain_name(chain_id);
    match c {
        ChainName::Unnamed => {
            return Err(LoomError::NoNamedChain);
        },
        ChainName::OtherNamed => {
            return Err(LoomError::ChainTokensNotLoaded);
        },
        _ => {},
    }
    let tokens = default_tokens_of(c);
    let ghost want = default_tokens(c);
    let mut tokens = tokens;
    let mut added: usize = 0;
    let n = tokens.len();
    let ghost all = tokens@.map_values(|t: Token| t@);
    while tokens.len() > 0
        invariant
            market.wf(),
            all == want,
            added + tokens@.len() == n,
            n == want.len(),
            tokens@.map_values(|t: Token| t@) == want.subrange(added as int, n as int),
            market.tokens_view() == with_tokens(old(market).tokens_view(), want.subrange(0, added as int)),
            forall|k: int| 0 <= k < added ==> market.has_token(#[trigger] want[k].address)
                && (want[k].basic ==> market.token_basic(want[k].address)),
            market.pools_view() == old(market).pools_view(),
            market.edges_view() == old(market).edges_view(),
            market.paths_view() == old(market).paths_view(),
        decreases tokens.len(),
    {
        let ghost tb = tokens@;
        let t = tokens.remove(0);
        let ghost tv = t@;
        assert(tv == want[added as int]) by {
            assert(want.subrange(added as int, n as int)[0] == want[added as int]);
        }
        let ghost m0 = *market;
        let _ = market.add_token(t);
        proof {
            assert(want.subrange(0, added + 1 as int).drop_last() =~= want.subrange(0, added as int));
            assert(want.subrange(0, added + 1 as int).last() == tv);
            assert(tokens@ == tb.remove(0));
            let mv = tokens@.map_values(|t: Token| t@);
            assert forall|x: int| 0 <= x < tokens@.len() implies #[trigger] mv[x] == want.subrange(added + 1, n as int)[x] by {
                assert(tokens@[x] == tb[x + 1]);
                assert(tb.map_values(|t: Token| t@)[x + 1] == want.subrange(added as int, n as int)[x + 1]);
            }
            assert(tokens@.map_values(|t: Token| t@) =~= want.subrange(added + 1, n as int));
            lemma_token_kept(&m0, market, tv);
            assert forall|k: int| 0 <= k < added implies market.has_token(#[trigger] want[k].address)
                && (want[k].basic ==> market.token_basic(want[k].address)) by {
                lemma_token_stays(&m0, market, tv, want[k].address);
            }
        }
        added = added + 1;
    }
    assert(want.subrange(0, added as int) =~= want);
    Ok(())
}

} // verus!
