//! Scenario and boundary tests for the engine's stated behaviour.

use dex::{
    Address, DexConfig, OrderBook, OrderId, OrderSide, Pair, PairId, PoolError, PoolManager,
    Price, U256,
};

fn eth() -> Address {
    Address::zero()
}

fn usdc() -> Address {
    Address::repeat_byte(0x01)
}

fn link() -> Address {
    Address::repeat_byte(0x04)
}

fn eth_amount(n: u64) -> U256 {
    U256::from_u128((n as u128) * 10u128.pow(18))
}

fn usdc_price(p: u128) -> Price {
    Price::from_u128(p * 10u128.pow(6), 10u128.pow(18))
}

/// Price-time priority: two makers at the same price, the earlier fills
/// first and alone when it covers the taker.
#[test]
fn scenario_price_time_priority() {
    let mut pm = PoolManager::new();
    pm.create_pair(eth(), usdc()).unwrap();
    let a = Address::repeat_byte(0xA1);
    let b = Address::repeat_byte(0xB2);
    let c = Address::repeat_byte(0xC3);

    let (id_a, _) = pm
        .place_limit_order(eth(), usdc(), a, OrderSide::Sell, usdc_price(100), U256::from_u64(500))
        .unwrap();
    let (id_b, _) = pm
        .place_limit_order(eth(), usdc(), b, OrderSide::Sell, usdc_price(100), U256::from_u64(500))
        .unwrap();

    let result = pm
        .place_market_order(eth(), usdc(), c, OrderSide::Buy, U256::from_u64(500))
        .unwrap();

    // One fill of 500 against A; B untouched; A removed; C fully filled.
    assert_eq!(result.fills.len(), 1);
    assert_eq!(result.fills[0].maker_order_id, id_a);
    assert_eq!(result.fills[0].base_amount, U256::from_u64(500));
    assert!(result.fully_filled);

    let book = pm.get_orderbook(&Pair::new(eth(), usdc())).unwrap();
    assert!(book.get_order(id_a).is_none());
    let b_order = book.get_order(id_b).unwrap();
    assert_eq!(b_order.remaining_amount, U256::from_u64(500));
}

/// Level sweep: a limit buy of 25 against asks 10 @ 2000, 10 @ 2010,
/// 10 @ 2020 fills 10, 10, 5 at those prices and leaves 5 @ 2020 resting.
#[test]
fn scenario_level_sweep() {
    let mut pm = PoolManager::new();
    pm.create_pair(eth(), usdc()).unwrap();
    let maker = Address::repeat_byte(0xA1);
    let taker = Address::repeat_byte(0xB2);

    for p in [2000u128, 2010, 2020] {
        pm.place_limit_order(
            eth(),
            usdc(),
            maker,
            OrderSide::Sell,
            Price::from_u128(p, 1),
            U256::from_u64(10),
        )
        .unwrap();
    }

    let (_, result) = pm
        .place_limit_order(
            eth(),
            usdc(),
            taker,
            OrderSide::Buy,
            Price::from_u128(2020, 1),
            U256::from_u64(25),
        )
        .unwrap();

    assert_eq!(result.fills.len(), 3);
    assert_eq!(result.fills[0].base_amount, U256::from_u64(10));
    assert_eq!(result.fills[0].price.numerator, U256::from_u128(2000));
    assert_eq!(result.fills[1].base_amount, U256::from_u64(10));
    assert_eq!(result.fills[1].price.numerator, U256::from_u128(2010));
    assert_eq!(result.fills[2].base_amount, U256::from_u64(5));
    assert_eq!(result.fills[2].price.numerator, U256::from_u128(2020));

    // Book retains 5 @ 2020 on the ask side.
    let book = pm.get_orderbook(&Pair::new(eth(), usdc())).unwrap();
    let left = book.liquidity_at_price(OrderSide::Sell, Price::from_u128(2020, 1));
    assert_eq!(left, U256::from_u64(5));
    assert!(book.best_ask().is_some());
}

/// Self-trade prevention: a trader's buy does not match their own resting
/// sell; the buy rests at its price.
#[test]
fn scenario_self_trade_prevention() {
    let mut pm = PoolManager::new();
    pm.create_pair(eth(), usdc()).unwrap();
    let a = Address::repeat_byte(0xA1);

    pm.place_limit_order(eth(), usdc(), a, OrderSide::Sell, Price::from_u128(2000, 1),
        U256::from_u64(10))
        .unwrap();
    let (buy_id, result) = pm
        .place_limit_order(eth(), usdc(), a, OrderSide::Buy, Price::from_u128(2000, 1),
            U256::from_u64(5))
        .unwrap();

    assert!(result.fills.is_empty());
    let book = pm.get_orderbook(&Pair::new(eth(), usdc())).unwrap();
    let rested = book.get_order(buy_id).unwrap();
    assert_eq!(rested.remaining_amount, U256::from_u64(5));
    assert_eq!(rested.side, OrderSide::Buy);
}

/// Multi-hop fee: a two-hop quote carries the sum of the per-hop fees, each
/// charged on that hop's output.
#[test]
fn scenario_multi_hop_fee_sum() {
    let mut pm = PoolManager::new();
    pm.create_pair(eth(), usdc()).unwrap();
    pm.create_pair(link(), eth()).unwrap();
    let maker = Address::repeat_byte(0xA1);

    // 1 LINK = 2 ETH, 1 ETH = 3 USDC, generous liquidity on the bid sides.
    pm.place_limit_order(link(), eth(), maker, OrderSide::Buy, Price::from_u128(2, 1),
        U256::from_u64(1_000_000))
        .unwrap();
    pm.place_limit_order(eth(), usdc(), maker, OrderSide::Buy, Price::from_u128(3, 1),
        U256::from_u64(1_000_000))
        .unwrap();

    let cfg = pm.config();
    let quote = pm.get_quote(link(), usdc(), U256::from_u64(10_000)).unwrap();
    assert_eq!(quote.route.hops.len(), 2);

    // First hop sells 10000 LINK for 20000 ETH; the simulated hop output is
    // fee-reduced, and the recorded hop fee is charged on that output.
    let q1 = 20_000u128;
    let out1 = q1 - cfg.calculate_fee(q1);
    let fee1 = cfg.calculate_fee(out1);
    let q2 = out1 * 3;
    let out2 = q2 - cfg.calculate_fee(q2);
    let fee2 = cfg.calculate_fee(out2);
    assert_eq!(quote.total_fee, U256::from_u128(fee1 + fee2));
    assert_eq!(quote.amount_out, U256::from_u128(out2));
}

/// Slippage guard: a failing swap leaves every book unchanged.
#[test]
fn scenario_slippage_leaves_books_unchanged() {
    let mut pm = PoolManager::new();
    pm.create_pair(eth(), usdc()).unwrap();
    let maker = Address::repeat_byte(0xA1);
    pm.place_limit_order(eth(), usdc(), maker, OrderSide::Buy, usdc_price(1990), eth_amount(10))
        .unwrap();

    let before = pm.pair_stats(eth(), usdc()).unwrap();
    let r = pm.execute_swap(
        Address::repeat_byte(0xB2),
        eth(),
        usdc(),
        eth_amount(5),
        U256::from_u128(100_000 * 10u128.pow(6)),
    );
    assert_eq!(r.unwrap_err(), PoolError::SlippageExceeded);

    let after = pm.pair_stats(eth(), usdc()).unwrap();
    assert_eq!(before.best_bid, after.best_bid);
    assert_eq!(before.best_ask, after.best_ask);
    assert_eq!(before.total_volume, after.total_volume);
    assert_eq!(before.buy_order_count, after.buy_order_count);
    assert_eq!(before.sell_order_count, after.sell_order_count);
}

/// Insufficient liquidity: a market buy of 1000 against a single ask of 10
/// fills 10, reports 990 remaining, and empties the ask side.
#[test]
fn scenario_insufficient_liquidity() {
    let mut pm = PoolManager::new();
    pm.create_pair(eth(), usdc()).unwrap();
    let maker = Address::repeat_byte(0xA1);
    pm.place_limit_order(eth(), usdc(), maker, OrderSide::Sell, Price::from_u128(2000, 1),
        U256::from_u64(10))
        .unwrap();

    let result = pm
        .place_market_order(eth(), usdc(), Address::repeat_byte(0xB2), OrderSide::Buy,
            U256::from_u64(1000))
        .unwrap();

    assert_eq!(result.fills.len(), 1);
    assert_eq!(result.fills[0].base_amount, U256::from_u64(10));
    assert!(!result.fully_filled);
    assert_eq!(result.remaining_amount, U256::from_u64(990));

    let book = pm.get_orderbook(&Pair::new(eth(), usdc())).unwrap();
    assert!(book.best_ask().is_none());
}

/// Simulating a sell and then executing the same sell against the unchanged
/// book produces at least the simulated output (the simulation subtracts the
/// fee; executed fills are pre-fee).
#[test]
fn simulate_then_execute_sell() {
    let mut pm = PoolManager::new();
    pm.create_pair(eth(), usdc()).unwrap();
    let maker = Address::repeat_byte(0xA1);
    pm.place_limit_order(eth(), usdc(), maker, OrderSide::Buy, usdc_price(1990), eth_amount(10))
        .unwrap();
    pm.place_limit_order(eth(), usdc(), maker, OrderSide::Buy, usdc_price(1980), eth_amount(10))
        .unwrap();

    let quote = pm.get_quote(eth(), usdc(), eth_amount(15)).unwrap();
    let simulated = quote.amount_out;

    let result = pm
        .execute_swap(Address::repeat_byte(0xB2), eth(), usdc(), eth_amount(15), U256::zero())
        .unwrap();
    assert!(simulated.le(&result.amount_out));
}

/// An amount exactly at the minimum order size is accepted; one below it is
/// rejected with the order error.
#[test]
fn boundary_min_order_size() {
    let config = DexConfig::default().with_min_order_size(1000);
    let mut pm = PoolManager::with_config(config);
    pm.create_pair(eth(), usdc()).unwrap();
    let a = Address::repeat_byte(0xA1);

    let ok = pm.place_limit_order(eth(), usdc(), a, OrderSide::Sell, Price::from_u128(2000, 1),
        U256::from_u64(1000));
    assert!(ok.is_ok());

    let err = pm.place_limit_order(eth(), usdc(), a, OrderSide::Sell, Price::from_u128(2000, 1),
        U256::from_u64(999));
    assert_eq!(err.unwrap_err(), PoolError::OrderError(dex::OrderError::BelowMinimumSize));
}

/// A limit order exactly at the best opposite price matches.
#[test]
fn boundary_limit_at_best_opposite() {
    let mut pm = PoolManager::new();
    pm.create_pair(eth(), usdc()).unwrap();
    pm.place_limit_order(eth(), usdc(), Address::repeat_byte(0xA1), OrderSide::Sell,
        Price::from_u128(2000, 1), U256::from_u64(10))
        .unwrap();
    let (_, result) = pm
        .place_limit_order(eth(), usdc(), Address::repeat_byte(0xB2), OrderSide::Buy,
            Price::from_u128(2000, 1), U256::from_u64(10))
        .unwrap();
    assert_eq!(result.fills.len(), 1);
    assert!(result.fully_filled);
}

/// Zero amounts are rejected on the quote path.
#[test]
fn errors_zero_amount_and_same_token() {
    let mut pm = PoolManager::new();
    pm.create_pair(eth(), usdc()).unwrap();
    assert_eq!(pm.get_quote(eth(), usdc(), U256::zero()).unwrap_err(), PoolError::InvalidAmount);
    assert_eq!(
        pm.get_quote(eth(), eth(), U256::from_u64(1)).unwrap_err(),
        PoolError::InvalidPair,
    );
}

/// Unknown pairs and unknown order ids surface their errors; a cancel of an
/// unknown or already-cancelled id leaves the book unchanged.
#[test]
fn errors_not_found_and_cancel_idempotence() {
    let mut pm = PoolManager::new();
    pm.create_pair(eth(), usdc()).unwrap();
    let a = Address::repeat_byte(0xA1);

    assert_eq!(
        pm.place_market_order(eth(), link(), a, OrderSide::Buy, U256::from_u64(5)).unwrap_err(),
        PoolError::PairNotFound,
    );

    let (oid, _) = pm
        .place_limit_order(eth(), usdc(), a, OrderSide::Buy, Price::from_u128(1, 1),
            U256::from_u64(5))
        .unwrap();
    pm.cancel_order(eth(), usdc(), oid).unwrap();
    let before = pm.pair_stats(eth(), usdc()).unwrap();
    // Cancelling a terminal id again: OrderNotFound, book unchanged.
    assert_eq!(
        pm.cancel_order(eth(), usdc(), oid).unwrap_err(),
        PoolError::OrderError(dex::OrderError::OrderNotFound),
    );
    assert_eq!(
        pm.cancel_order(eth(), usdc(), OrderId(999)).unwrap_err(),
        PoolError::OrderError(dex::OrderError::OrderNotFound),
    );
    let after = pm.pair_stats(eth(), usdc()).unwrap();
    assert_eq!(before.buy_order_count, after.buy_order_count);
    assert_eq!(before.sell_order_count, after.sell_order_count);
    assert_eq!(before.total_volume, after.total_volume);
}

/// No route at all between disconnected tokens.
#[test]
fn errors_no_route_found() {
    let mut pm = PoolManager::new();
    pm.create_pair(eth(), usdc()).unwrap();
    let dai = Address::repeat_byte(0x05);
    let wbtc = Address::repeat_byte(0x06);
    pm.create_pair(dai, wbtc).unwrap();
    assert_eq!(
        pm.get_quote(eth(), dai, U256::from_u64(5)).unwrap_err(),
        PoolError::NoRouteFound,
    );
}

/// The sum over a side's levels of the per-level totals equals the base
/// remaining across that side's orders, as reported through the depth view.
#[test]
fn book_liquidity_accounting() {
    let mut book = OrderBook::new(Pair::new(eth(), usdc()));
    let cfg = DexConfig::default();
    let a = Address::repeat_byte(0xA1);
    let b = Address::repeat_byte(0xB2);

    book.place_limit_order(a, OrderSide::Sell, Price::from_u128(2000, 1), U256::from_u64(7), &cfg)
        .unwrap();
    book.place_limit_order(b, OrderSide::Sell, Price::from_u128(2000, 1), U256::from_u64(5), &cfg)
        .unwrap();
    book.place_limit_order(a, OrderSide::Sell, Price::from_u128(2010, 1), U256::from_u64(3), &cfg)
        .unwrap();

    let depth = book.ask_liquidity(10);
    assert_eq!(depth.len(), 2);
    assert_eq!(depth[0].1, U256::from_u64(12));
    assert_eq!(depth[1].1, U256::from_u64(3));
    assert_eq!(
        book.liquidity_at_price(OrderSide::Sell, Price::from_u128(2000, 1)),
        U256::from_u64(12),
    );
}

/// Distinct token pairs hash to distinct pair ids; equal pairs in either
/// direction hash alike.
#[test]
fn pair_id_distinguishes_pairs() {
    let id1 = PairId::from_tokens(eth(), usdc());
    let id2 = PairId::from_tokens(eth(), link());
    let id3 = PairId::from_tokens(usdc(), eth());
    assert_ne!(id1, id2);
    assert_eq!(id1, id3);
}

/// 256-bit arithmetic: exact multiplication, division and saturation
/// behaviour through the price computations.
#[test]
fn amount_arithmetic_behaviour() {
    let big = U256::max_value();
    // Saturating product of two large values clamps at the maximum.
    let p = Price::new(big, U256::from_u64(1));
    // quote_amount of 2 * MAX overflows and is None.
    assert!(p.quote_amount(U256::from_u64(2)).is_none());
    // Division truncates toward zero: 7 / 2 = 3 at price 1/2.
    let half = Price::from_u128(1, 2);
    assert_eq!(half.quote_amount(U256::from_u64(7)), Some(U256::from_u64(3)));
    // Conversion clamps: MAX does not fit into 128 bits.
    assert_eq!(big.to_u128_saturating(), u128::MAX);
    assert_eq!(U256::from_u128(77).to_u128_saturating(), 77);
}
