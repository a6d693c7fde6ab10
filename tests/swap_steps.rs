use loom_market::chain_tokens::add_default_tokens_to_market;
use loom_market::error::LoomError;
use loom_market::loader::{add_pool_and_paths, LoaderAction, PoolLoaderState};
use loom_market::market::Market;
use loom_market::pool::{Pool, PoolClass, PoolId, PoolWrapper, PreswapRequirement};
use loom_market::primitives::{Address, U256};
use loom_market::swap::{Swap, SwapAmountType, SwapLine};
use loom_market::swap_path::SwapPath;
use loom_market::token::Token;

fn addr(n: u64) -> Address {
    Address::new(0x3000_0000 + n as u32, 0x1234_5678_9abc_def0 ^ n, n.wrapping_mul(0x9e37_79b9_7f4a_7c15))
}

fn weth() -> Address {
    Address::new(0xc02aaa39, 0xb223fe8d0a0e5c4f, 0x27ead9083c756cc2)
}

fn pool(a: Address, class: PoolClass) -> Pool {
    Pool::new(a, class, U256::zero(), PreswapRequirement::Transfer(a), false)
}

fn backrun(classes: &[PoolClass]) -> (Swap, Vec<Address>) {
    let pools: Vec<Pool> = classes.iter().enumerate().map(|(i, c)| pool(addr(100 + i as u64), *c)).collect();
    let tokens: Vec<Address> = (0..=classes.len()).map(|i| addr(200 + i as u64)).collect();
    let addrs = pools.iter().map(|p| p.address).collect();
    let l = SwapLine::new(SwapPath::new(tokens, pools), SwapAmountType::Fixed(U256::from_u128(5)), SwapAmountType::NotSet);
    (Swap::BackrunSwapLine(l), addrs)
}

#[test]
fn backrun_splits_at_first_flash_side() {
    let mc = addr(1);
    let (swap, addrs) = backrun(&[PoolClass::Curve, PoolClass::Curve, PoolClass::UniswapV2]);
    let (s0, s1) = swap.to_swap_steps(mc).unwrap();
    assert_eq!(s0.swap_line_vec[0].path.pools.len(), 2);
    assert_eq!(s1.swap_line_vec[0].path.pools.len(), 1);
    assert_eq!(s1.swap_line_vec[0].amount_in, SwapAmountType::Balance(mc));
    assert_eq!(s0.swap_line_vec[0].amount_in, SwapAmountType::Fixed(U256::from_u128(5)));
    let mut joined = s0.pool_addresses();
    joined.extend(s1.pool_addresses());
    assert_eq!(joined, addrs);
    assert_eq!(swap.get_pool_address_vec(), addrs);
}

#[test]
fn backrun_without_flash_side_splits_at_one() {
    let mc = addr(2);
    let (swap, addrs) = backrun(&[PoolClass::Curve, PoolClass::Curve, PoolClass::Curve]);
    let (s0, s1) = swap.to_swap_steps(mc).unwrap();
    assert_eq!(s0.swap_line_vec[0].path.pools.len(), 1);
    assert_eq!(s1.swap_line_vec[0].path.pools.len(), 2);
    assert_eq!(s1.swap_line_vec[0].path.tokens.len(), 3);
    let mut joined = s0.pool_addresses();
    joined.extend(s1.pool_addresses());
    assert_eq!(joined, addrs);
}

#[test]
fn other_swaps_have_no_steps() {
    assert!(Swap::Empty.to_swap_steps(addr(1)).is_none());
    let (swap, addrs) = backrun(&[PoolClass::UniswapV3]);
    let multiple = Swap::Multiple(vec![swap, Swap::Empty]);
    assert!(multiple.to_swap_steps(addr(1)).is_none());
    assert_eq!(multiple.get_pool_address_vec(), addrs);
}

#[test]
fn steps_pass_through() {
    let (swap, _) = backrun(&[PoolClass::UniswapV2, PoolClass::UniswapV3]);
    let (s0, s1) = swap.to_swap_steps(addr(3)).unwrap();
    let steps = Swap::BackrunSwapSteps((s0, s1));
    let (a, b) = steps.to_swap_steps(addr(4)).unwrap();
    assert_eq!(a.multicaller, addr(3));
    assert_eq!(b.swap_line_vec[0].amount_in, SwapAmountType::Balance(addr(3)));
    assert_eq!(steps.get_first_token(), Some(addr(200)));
}

#[test]
fn loader_fetches_each_pool_once() {
    let mut state = PoolLoaderState::new();
    let x = PoolId::Address(addr(5));
    assert_eq!(state.on_task(x, PoolClass::UniswapV2), LoaderAction::Fetch(x, PoolClass::UniswapV2));
    assert_eq!(state.on_task(x, PoolClass::UniswapV2), LoaderAction::Skip);
    assert!(state.is_processed(x));
    let y = PoolId::Address(addr(6));
    let batch = state.on_tasks(&vec![(x, PoolClass::UniswapV2), (y, PoolClass::Curve), (y, PoolClass::Curve)]);
    assert_eq!(batch, vec![(y, PoolClass::Curve)]);
}

#[test]
fn loaded_pool_joins_market_with_paths() {
    let mut market = Market::new();
    market.add_token(Token::new_with_data(weth(), None, None, Some(18), true, false)).unwrap();
    let t1 = addr(7);
    let pool_one = pool(addr(8), PoolClass::UniswapV2);
    market.add_pool(PoolWrapper::new_pair(pool_one, weth(), t1)).unwrap();
    let pool_two = pool(addr(9), PoolClass::UniswapV3);
    add_pool_and_paths(&mut market, PoolWrapper::new_pair(pool_two, weth(), t1)).unwrap();
    assert!(market.is_pool(&pool_two.id));
    assert_eq!(market.get_pool_paths(&pool_two.id).unwrap().len(), 2);
    add_pool_and_paths(&mut market, PoolWrapper::new_pair(pool_two, weth(), t1)).unwrap();
    assert_eq!(market.swap_paths().len(), 2);
}

#[test]
fn default_tokens_by_chain() {
    let mut market = Market::new();
    assert!(add_default_tokens_to_market(&mut market, 1).is_ok());
    assert!(market.is_basic_token(&weth()));
    let three_crv = Address::new(0x6c3f90f0, 0x43a72fa612cbac81, 0x15ee7e52bde6e490);
    assert!(market.get_token(&three_crv).unwrap().is_middle());
    assert!(!market.is_basic_token(&three_crv));
    let mut other = Market::new();
    assert_eq!(add_default_tokens_to_market(&mut other, 10), Err(LoomError::ChainTokensNotLoaded));
    assert_eq!(add_default_tokens_to_market(&mut other, 0xffff_ffff_fff1), Err(LoomError::NoNamedChain));
    assert!(add_default_tokens_to_market(&mut other, 8453).is_ok());
    let base_weth = Address::new(0x42000000, 0, 6);
    assert!(other.is_basic_token(&base_weth));
}

#[test]
fn gas_estimate_sums_lines_and_parts() {
    let (swap, _) = backrun(&[PoolClass::UniswapV2, PoolClass::UniswapV3]);
    let line_swap = match swap {
        Swap::BackrunSwapLine(mut l) => {
            l.gas_used = Some(100_000);
            Swap::BackrunSwapLine(l)
        }
        other => other,
    };
    assert_eq!(line_swap.pre_estimate_gas(), 100_000);
    let (steps_src, _) = backrun(&[PoolClass::UniswapV2, PoolClass::UniswapV3]);
    let (mut s0, mut s1) = steps_src.to_swap_steps(addr(1)).unwrap();
    s0.swap_line_vec[0].gas_used = Some(30);
    s1.swap_line_vec[0].gas_used = Some(12);
    let steps = Swap::BackrunSwapSteps((s0, s1));
    assert_eq!(steps.pre_estimate_gas(), 42);
    let both = Swap::Multiple(vec![line_swap, steps, Swap::Empty]);
    assert_eq!(both.pre_estimate_gas(), 100_042);
    let (big, _) = backrun(&[PoolClass::UniswapV2]);
    let big = match big {
        Swap::BackrunSwapLine(mut l) => {
            l.gas_used = Some(u64::MAX);
            Swap::BackrunSwapLine(l)
        }
        other => other,
    };
    assert_eq!(Swap::Multiple(vec![big, both]).pre_estimate_gas(), u64::MAX);
}

#[test]
fn failed_fetch_is_retried_only_when_asked() {
    let x = PoolId::Address(addr(10));
    let y = PoolId::Address(addr(11));
    let mut keep = PoolLoaderState::new();
    keep.on_task(x, PoolClass::Curve);
    keep.on_fetch_failed(x);
    assert_eq!(keep.on_task(x, PoolClass::Curve), LoaderAction::Skip);

    let mut retry = PoolLoaderState::with_retry(true);
    retry.on_task(x, PoolClass::Curve);
    retry.on_task(y, PoolClass::Curve);
    retry.on_fetch_failed(x);
    assert!(!retry.is_processed(x));
    assert!(retry.is_processed(y));
    assert_eq!(retry.on_task(x, PoolClass::Curve), LoaderAction::Fetch(x, PoolClass::Curve));
}
