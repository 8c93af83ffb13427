//! Tests for the router's graph and path enumeration.

use dex::{Address, OrderBook, Pair, PairId, Router};

fn setup_tokens() -> (Address, Address, Address, Address) {
    let eth = Address::zero();
    let usdc = Address::repeat_byte(0x01);
    let wbtc = Address::repeat_byte(0x02);
    let dai = Address::repeat_byte(0x03);
    (eth, usdc, wbtc, dai)
}

#[test]
fn test_router_add_pair() {
    let mut router = Router::new();
    let (eth, usdc, _, _) = setup_tokens();

    let pair = Pair::new(eth, usdc);
    router.add_pair(pair);

    let from_eth = router.reachable_tokens(eth);
    assert!(from_eth.contains(&usdc));
    let from_usdc = router.reachable_tokens(usdc);
    assert!(from_usdc.contains(&eth));
}

#[test]
fn test_router_has_path() {
    let mut router = Router::new();
    let (eth, usdc, wbtc, dai) = setup_tokens();

    // ETH <-> USDC <-> WBTC
    router.add_pair(Pair::new(eth, usdc));
    router.add_pair(Pair::new(usdc, wbtc));

    assert!(router.has_path(eth, usdc)); // Direct
    assert!(router.has_path(eth, wbtc)); // Via USDC
    assert!(!router.has_path(eth, dai)); // No connection
}

#[test]
fn test_find_routes() {
    let mut router = Router::new();
    let (eth, usdc, wbtc, _) = setup_tokens();

    // Create a triangle: ETH <-> USDC <-> WBTC <-> ETH
    let pair1 = Pair::new(eth, usdc);
    let pair2 = Pair::new(usdc, wbtc);
    let pair3 = Pair::new(eth, wbtc);

    router.add_pair(pair1);
    router.add_pair(pair2);
    router.add_pair(pair3);

    // Create mock orderbooks
    let mut orderbooks: Vec<(PairId, OrderBook)> = Vec::new();
    orderbooks.push((pair1.id(), OrderBook::new(pair1)));
    orderbooks.push((pair2.id(), OrderBook::new(pair2)));
    orderbooks.push((pair3.id(), OrderBook::new(pair3)));

    let routes = router.find_routes(eth, wbtc, 2, &orderbooks);

    // Should find direct route and route via USDC
    assert!(routes.len() >= 2);

    // First route should be direct (shorter)
    assert_eq!(routes[0].len(), 1);
}

#[test]
fn test_reachable_tokens() {
    let mut router = Router::new();
    let (eth, usdc, wbtc, dai) = setup_tokens();

    router.add_pair(Pair::new(eth, usdc));
    router.add_pair(Pair::new(usdc, wbtc));
    // DAI is not connected

    let reachable = router.reachable_tokens(eth);
    assert!(reachable.contains(&usdc));
    assert!(reachable.contains(&wbtc));
    assert!(!reachable.contains(&dai));
}
