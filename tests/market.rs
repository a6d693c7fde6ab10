use loom_market::error::LoomError;
use loom_market::market::Market;
use loom_market::pool::{Pool, PoolClass, PoolId, PoolWrapper, PreswapRequirement};
use loom_market::primitives::{Address, U256};
use loom_market::token::Token;

fn addr(n: u64) -> Address {
    Address::new(0x1000_0000 + n as u32, 0x1111_2222_3333_4444 ^ n, n.wrapping_mul(0x9e37_79b9_7f4a_7c15))
}

fn weth() -> Address {
    Address::new(0xc02aaa39, 0xb223fe8d0a0e5c4f, 0x27ead9083c756cc2)
}

fn mock_pool(address: Address, token0: Address, token1: Address) -> PoolWrapper {
    let pool = Pool::new(address, PoolClass::UniswapV2, U256::from_u64(9970), PreswapRequirement::Transfer(address), false);
    PoolWrapper::new_pair(pool, token0, token1)
}

fn weth_token() -> Token {
    Token::new_with_data(weth(), Some("WETH".to_string()), None, Some(18), true, false)
}

#[test]
fn test_add_pool() {
    let mut market = Market::new();
    let pool_address = addr(1);
    let token0 = addr(2);
    let token1 = addr(3);
    let result = market.add_pool(mock_pool(pool_address, token0, token1));
    assert!(result.is_ok());
    assert_eq!(market.get_pool(&PoolId::Address(pool_address)).unwrap().get_address(), pool_address);
    assert_eq!(*market.get_token_token_pools(&token0, &token1).unwrap().get(0).unwrap(), PoolId::Address(pool_address));
    assert_eq!(*market.get_token_token_pools(&token1, &token0).unwrap().get(0).unwrap(), PoolId::Address(pool_address));
    assert!(market.get_token_tokens(&token0).unwrap().contains(&token1));
    assert!(market.get_token_tokens(&token1).unwrap().contains(&token0));
    assert!(market.get_token_pools(&token0).unwrap().contains(&PoolId::Address(pool_address)));
    assert!(market.get_token_pools(&token1).unwrap().contains(&PoolId::Address(pool_address)));
}

#[test]
fn test_add_token() {
    let mut market = Market::new();
    let token_address = addr(4);
    let result = market.add_token(Token::new(token_address));
    assert!(result.is_ok());
    assert_eq!(market.get_token(&token_address).unwrap().get_address(), token_address);
}

#[test]
fn test_get_token_default() {
    let market = Market::new();
    let token_address = addr(5);
    let token = market.get_token_or_default(&token_address);
    assert_eq!(token.get_address(), token_address);
}

#[test]
fn test_get_pool() {
    let mut market = Market::new();
    let pool_address = addr(6);
    market.add_pool(mock_pool(pool_address, Address::zero(), Address::zero())).unwrap();
    let pool = market.get_pool(&PoolId::Address(pool_address));
    assert_eq!(pool.unwrap().get_address(), pool_address);
}

#[test]
fn test_is_pool() {
    let mut market = Market::new();
    let pool_address = addr(7);
    market.add_pool(mock_pool(pool_address, Address::zero(), Address::zero())).unwrap();
    let is_pool = market.is_pool(&PoolId::Address(pool_address));
    assert!(is_pool);
}

#[test]
fn test_is_pool_not_found() {
    let market = Market::new();
    let pool_address = addr(8);
    let is_pool = market.is_pool(&PoolId::Address(pool_address));
    assert!(!is_pool);
}

#[test]
fn test_set_pool_disabled() {
    let mut market = Market::new();
    let pool_address = addr(9);
    let token0 = addr(10);
    let token1 = addr(11);
    market.add_pool(mock_pool(pool_address, token0, token1)).unwrap();

    assert!(!market.is_pool_disabled(&PoolId::Address(pool_address)));
    assert_eq!(market.get_token_token_pools(&token0, &token1).unwrap().len(), 1);

    market.set_pool_disabled(PoolId::Address(pool_address), true);
    assert!(market.is_pool_disabled(&PoolId::Address(pool_address)));
    assert_eq!(market.get_token_token_pools(&token0, &token1).unwrap().len(), 1);

    market.set_pool_disabled(PoolId::Address(pool_address), false);
    assert!(!market.is_pool_disabled(&PoolId::Address(pool_address)));
    assert_eq!(market.get_token_token_pools(&token0, &token1).unwrap().len(), 1);
}

#[test]
fn test_get_token_token_pools() {
    let mut market = Market::new();
    let pool_address = addr(12);
    let token0 = addr(13);
    let token1 = addr(14);
    market.add_pool(mock_pool(pool_address, token0, token1)).unwrap();
    let pools = market.get_token_token_pools(&token0, &token1);
    assert_eq!(pools.unwrap().get(0).unwrap(), &PoolId::Address(pool_address));
}

#[test]
fn test_get_token_tokens() {
    let mut market = Market::new();
    let pool_address = addr(15);
    let token0 = addr(16);
    let token1 = addr(17);
    market.add_pool(mock_pool(pool_address, token0, token1)).unwrap();
    let tokens = market.get_token_tokens(&token0);
    assert_eq!(tokens.unwrap().get(0).unwrap(), &token1);
}

#[test]
fn test_get_token_pools() {
    let mut market = Market::new();
    let pool_address = addr(18);
    let token0 = addr(19);
    let token1 = addr(20);
    market.add_pool(mock_pool(pool_address, token0, token1)).unwrap();
    let pools = market.get_token_pools(&token0);
    assert_eq!(pools.unwrap().get(0).unwrap(), &PoolId::Address(pool_address));
}

#[test]
fn test_build_swap_path_vec_two_hops() {
    let mut market = Market::new();
    market.add_token(weth_token()).unwrap();

    let pool_address1 = addr(21);
    let token1 = addr(22);
    let mock_pool1 = mock_pool(pool_address1, weth(), token1);
    market.add_pool(mock_pool1).unwrap();

    let pool_address2 = addr(23);
    let mock_pool2 = mock_pool(pool_address2, weth(), token1);
    let seed = mock_pool2.pool;
    let directions = mock_pool2.get_swap_directions();
    market.add_pool(mock_pool2).unwrap();

    let swap_paths = market.build_swap_path_vec(&vec![(seed, directions)]).unwrap();

    assert_eq!(swap_paths.len(), 2);
    assert_eq!(swap_paths.get(0).unwrap().pool_count(), 2);
    assert_eq!(swap_paths.get(0).unwrap().tokens_count(), 3);
    assert_eq!(swap_paths.get(1).unwrap().pool_count(), 2);
    assert_eq!(swap_paths.get(1).unwrap().tokens_count(), 3);

    let (first_path, second_path) = if swap_paths.get(0).unwrap().pools.get(0).unwrap().get_address() == pool_address1 {
        (swap_paths.get(0).unwrap(), swap_paths.get(1).unwrap())
    } else {
        (swap_paths.get(1).unwrap(), swap_paths.get(0).unwrap())
    };

    let tokens = first_path.tokens.clone();
    assert_eq!(tokens.get(0), Some(&weth()));
    assert_eq!(tokens.get(1), Some(&token1));
    assert_eq!(tokens.get(2), Some(&weth()));
    let pools = first_path.pools.iter().map(|pool| pool.get_address()).collect::<Vec<Address>>();
    assert_eq!(pools.get(0), Some(&pool_address1));
    assert_eq!(pools.get(1), Some(&pool_address2));

    let tokens = second_path.tokens.clone();
    assert_eq!(tokens.get(0), Some(&weth()));
    assert_eq!(tokens.get(1), Some(&token1));
    assert_eq!(tokens.get(2), Some(&weth()));
    let pools = second_path.pools.iter().map(|pool| pool.get_address()).collect::<Vec<Address>>();
    assert_eq!(pools.get(0), Some(&pool_address2));
    assert_eq!(pools.get(1), Some(&pool_address1));
}

#[test]
fn test_build_swap_path_vec_three_hops() {
    let mut market = Market::new();
    market.add_token(weth_token()).unwrap();

    let token1 = addr(24);
    let token2 = addr(25);

    let pool_address1 = addr(26);
    market.add_pool(mock_pool(pool_address1, token1, weth())).unwrap();

    let pool_address2 = addr(27);
    market.add_pool(mock_pool(pool_address2, token1, token2)).unwrap();

    let pool_address3 = addr(28);
    let mock_pool3 = mock_pool(pool_address3, token2, weth());
    let seed = mock_pool3.pool;
    let directions = mock_pool3.get_swap_directions();
    market.add_pool(mock_pool3).unwrap();

    let swap_paths = market.build_swap_path_vec(&vec![(seed, directions)]).unwrap();

    assert_eq!(swap_paths.len(), 2);
    assert_eq!(swap_paths.get(0).unwrap().pool_count(), 3);
    assert_eq!(swap_paths.get(0).unwrap().tokens_count(), 4);
    assert_eq!(swap_paths.get(1).unwrap().pool_count(), 3);
    assert_eq!(swap_paths.get(1).unwrap().tokens_count(), 4);

    let (first_path, second_path) = if *swap_paths.get(0).unwrap().tokens.get(1).unwrap() == token1 {
        (swap_paths.get(0).unwrap(), swap_paths.get(1).unwrap())
    } else {
        (swap_paths.get(1).unwrap(), swap_paths.get(0).unwrap())
    };

    let tokens = first_path.tokens.clone();
    assert_eq!(tokens.get(0), Some(&weth()));
    assert_eq!(tokens.get(1), Some(&token1));
    assert_eq!(tokens.get(2), Some(&token2));
    assert_eq!(tokens.get(3), Some(&weth()));
    let pools = first_path.pools.iter().map(|pool| pool.get_address()).collect::<Vec<Address>>();
    assert_eq!(pools.get(0), Some(&pool_address1));
    assert_eq!(pools.get(1), Some(&pool_address2));
    assert_eq!(pools.get(2), Some(&pool_address3));

    let tokens = second_path.tokens.clone();
    assert_eq!(tokens.get(0), Some(&weth()));
    assert_eq!(tokens.get(1), Some(&token2));
    assert_eq!(tokens.get(2), Some(&token1));
    assert_eq!(tokens.get(3), Some(&weth()));
    let pools = second_path.pools.iter().map(|pool| pool.get_address()).collect::<Vec<Address>>();
    assert_eq!(pools.get(0), Some(&pool_address3));
    assert_eq!(pools.get(1), Some(&pool_address2));
    assert_eq!(pools.get(2), Some(&pool_address1));
}

#[test]
fn add_pool_twice_is_duplicate_and_changes_nothing() {
    let mut market = Market::new();
    let p = addr(30);
    let (t0, t1) = (addr(31), addr(32));
    market.add_pool(mock_pool(p, t0, t1)).unwrap();
    let second = market.add_pool(mock_pool(p, t0, t1));
    assert_eq!(second, Err(LoomError::Duplicate));
    assert_eq!(market.get_token_token_pools(&t0, &t1).unwrap().len(), 1);
    assert_eq!(market.get_token_tokens(&t0).unwrap().len(), 1);
    assert_eq!(market.pools().len(), 1);
}

#[test]
fn disabled_pool_disables_its_paths_and_back() {
    let mut market = Market::new();
    market.add_token(weth_token()).unwrap();
    let t1 = addr(33);
    let (pool_one, pool_two) = (addr(34), addr(35));
    market.add_pool(mock_pool(pool_one, weth(), t1)).unwrap();
    let w2 = mock_pool(pool_two, weth(), t1);
    let seed = w2.pool;
    let dirs = w2.get_swap_directions();
    market.add_pool(w2).unwrap();
    let paths = market.build_swap_path_vec(&vec![(seed, dirs)]).unwrap();
    market.add_paths(paths);
    assert_eq!(market.swap_paths().len(), 2);
    assert!(market.swap_paths().iter().all(|p| !p.disabled));

    market.set_pool_disabled(PoolId::Address(pool_one), true);
    assert!(market.get_pool_paths(&PoolId::Address(pool_one)).unwrap().iter().all(|p| p.disabled));
    assert_eq!(market.get_token_token_pools(&weth(), &t1).unwrap().len(), 2);

    market.set_pool_disabled(PoolId::Address(pool_one), false);
    assert!(market.swap_paths().iter().all(|p| !p.disabled));
}

#[test]
fn disabled_pool_is_not_used_for_new_paths() {
    let mut market = Market::new();
    market.add_token(weth_token()).unwrap();
    let t1 = addr(36);
    let (pool_one, pool_two) = (addr(37), addr(38));
    market.add_pool(mock_pool(pool_one, weth(), t1)).unwrap();
    market.set_pool_disabled(PoolId::Address(pool_one), true);
    let w2 = mock_pool(pool_two, weth(), t1);
    let seed = w2.pool;
    let dirs = w2.get_swap_directions();
    market.add_pool(w2).unwrap();
    let paths = market.build_swap_path_vec(&vec![(seed, dirs)]).unwrap();
    assert!(paths.is_empty());
}

#[test]
fn add_paths_skips_a_known_route() {
    let mut market = Market::new();
    market.add_token(weth_token()).unwrap();
    let t1 = addr(39);
    let (pool_one, pool_two) = (addr(40), addr(41));
    market.add_pool(mock_pool(pool_one, weth(), t1)).unwrap();
    let w2 = mock_pool(pool_two, weth(), t1);
    let seed = w2.pool;
    let dirs = w2.get_swap_directions();
    market.add_pool(w2).unwrap();
    let paths = market.build_swap_path_vec(&vec![(seed, dirs.clone())]).unwrap();
    market.add_paths(paths);
    let again = market.build_swap_path_vec(&vec![(seed, dirs)]).unwrap();
    market.add_paths(again);
    assert_eq!(market.swap_paths().len(), 2);
}

#[test]
fn unknown_pool_is_present_but_not_usable() {
    let mut market = Market::new();
    let p = addr(42);
    let pool = Pool::new(p, PoolClass::Unknown, U256::zero(), PreswapRequirement::Unknown, false);
    market.add_pool(PoolWrapper::new_pair(pool, addr(43), addr(44))).unwrap();
    assert!(market.is_pool(&PoolId::Address(p)));
    assert!(market.get_pool(&PoolId::Address(p)).is_none());
}

#[test]
fn swap_path_lookup_and_not_found() {
    let mut market = Market::new();
    market.add_token(weth_token()).unwrap();
    let t1 = addr(45);
    market.add_token(Token::new(t1)).unwrap();
    let p = addr(46);
    market.add_pool(mock_pool(p, weth(), t1)).unwrap();
    let path = market.swap_path(vec![weth(), t1], vec![PoolId::Address(p)]).unwrap();
    assert_eq!(path.pools[0].get_address(), p);
    assert_eq!(market.swap_path(vec![addr(47)], vec![]).err(), Some(LoomError::NotFound));
    assert_eq!(market.swap_path(vec![weth()], vec![PoolId::Address(addr(48))]).err(), Some(LoomError::NotFound));
}

#[test]
fn re_adding_a_basic_token_keeps_it_basic() {
    let mut market = Market::new();
    market.add_token(weth_token()).unwrap();
    market.add_token(Token::new(weth())).unwrap();
    assert!(market.is_basic_token(&weth()));
    assert!(!market.is_basic_token(&addr(49)));
}
