use dex::book::OrderBook;
use dex::error::DexError;
use dex::exchange::{
    CancelOrder, Exchange, Instruction, Market, Outcome, Phase, PlaceOrder, Request, Stage,
};
use dex::ledger::{AccountBalances, Asset, Ledger, VaultBalance};
use dex::order::{Fill, Order, OrderStatus, OrderType, Side};

const MARKET: u64 = 7;

fn balance(available: u64, reserved: u64) -> VaultBalance {
    VaultBalance { available, reserved }
}

fn place(owner: usize, side: Side, order_type: OrderType, price: Option<u64>, quantity: u64) -> PlaceOrder {
    PlaceOrder { market_id: MARKET, owner, side, order_type, price, quantity }
}

fn limit(owner: usize, side: Side, price: u64, quantity: u64) -> PlaceOrder {
    place(owner, side, OrderType::Limit, Some(price), quantity)
}

fn cancel(owner: usize, order_id: u64) -> CancelOrder {
    CancelOrder { market_id: MARKET, owner, order_id }
}

fn base_of(e: &Exchange, account: usize) -> VaultBalance {
    e.ledger().balances(account).unwrap().base
}

fn quote_of(e: &Exchange, account: usize) -> VaultBalance {
    e.ledger().balances(account).unwrap().quote
}

/// A running market with a seller (account 0) that holds 100 base units and
/// a buyer (account 1) that holds 100000 quote units.
fn market() -> Exchange {
    let mut e = Exchange::new(MARKET);
    assert_eq!(e.open_account(), 0);
    assert_eq!(e.open_account(), 1);
    assert_eq!(e.initialize_market(11, 22, true), Ok(MARKET));
    assert_eq!(e.deposit(0, Asset::Base, 100), Ok(()));
    assert_eq!(e.deposit(1, Asset::Quote, 100_000), Ok(()));
    e
}

fn snapshot(e: &Exchange) -> (Vec<Order>, Vec<Order>, Vec<(VaultBalance, VaultBalance)>, u64) {
    let accounts = (0..e.ledger().len())
        .map(|a| e.ledger().balances(a).unwrap())
        .map(|r| (r.base, r.quote))
        .collect();
    (e.book().orders(Side::Bid), e.book().orders(Side::Ask), accounts, e.next_order_id())
}

#[test]
fn new_state_is_uninitialized_and_empty() {
    let e = Exchange::new(MARKET);
    assert_eq!(e.phase(), Phase::Uninitialized);
    assert_eq!(e.market(), Market { id: MARKET, base_asset: 0, quote_asset: 0 });
    assert!(e.book().is_empty());
    assert_eq!(e.ledger().len(), 0);
    assert_eq!(e.next_order_id(), 1);
}

#[test]
fn initialize_market_returns_the_market_id_once() {
    let mut e = Exchange::new(MARKET);
    assert_eq!(e.initialize_market(11, 22, false), Err(DexError::Unauthorized));
    assert_eq!(e.phase(), Phase::Uninitialized);
    assert_eq!(e.initialize_market(11, 22, true), Ok(MARKET));
    assert_eq!(e.phase(), Phase::Active);
    assert_eq!(e.market(), Market { id: MARKET, base_asset: 11, quote_asset: 22 });
    assert_eq!(e.initialize_market(33, 44, true), Err(DexError::MarketAlreadyInitialized));
    assert_eq!(e.market(), Market { id: MARKET, base_asset: 11, quote_asset: 22 });
}

#[test]
fn orders_need_an_initialized_market() {
    let mut e = Exchange::new(MARKET);
    let a = e.open_account();
    assert_eq!(e.deposit(a, Asset::Base, 10), Ok(()));
    assert_eq!(e.place_order(limit(a, Side::Ask, 100, 10), true), Err(DexError::MarketNotInitialized));
    assert_eq!(e.cancel_order(cancel(a, 1), true), Err(DexError::MarketNotInitialized));
    assert_eq!(e.close_market(MARKET, true), Err(DexError::MarketNotInitialized));
}

#[test]
fn taker_bid_fills_the_resting_ask_and_both_sides_are_paid() {
    let mut e = market();
    assert_eq!(e.place_order(limit(0, Side::Ask, 100, 10), true), Ok((1, vec![])));
    let ask = e.book().best_ask().unwrap();
    assert_eq!((ask.id, ask.seq, ask.price, ask.remaining), (1, 1, 100, 10));
    assert_eq!(base_of(&e, 0), balance(90, 10));
    let r = e.place_order(limit(1, Side::Bid, 100, 10), true);
    let expected = Fill {
        maker_order_id: 1,
        taker_order_id: 2,
        price: 100,
        quantity: 10,
        maker: 0,
        taker: 1,
        taker_side: Side::Bid,
    };
    assert_eq!(r, Ok((2, vec![expected])));
    assert!(e.book().is_empty());
    assert_eq!(e.book().get(1), None);
    assert_eq!(base_of(&e, 1), balance(10, 0));
    assert_eq!(quote_of(&e, 1), balance(99_000, 0));
    assert_eq!(base_of(&e, 0), balance(90, 0));
    assert_eq!(quote_of(&e, 0), balance(1000, 0));
}

#[test]
fn limit_bid_against_an_empty_book_rests_and_is_escrowed() {
    let mut e = market();
    assert_eq!(e.place_order(limit(1, Side::Bid, 100, 5), true), Ok((1, vec![])));
    let bid = e.book().best_bid().unwrap();
    assert_eq!((bid.remaining, bid.original, bid.status), (5, 5, OrderStatus::Open));
    assert_eq!((bid.id, bid.owner, bid.price, bid.seq), (1, 1, 100, 1));
    assert_eq!(quote_of(&e, 1), balance(99_500, 500));
    assert_eq!(e.next_order_id(), 2);
}

#[test]
fn immediate_or_cancel_bid_below_the_best_ask_leaves_no_trace_in_the_book() {
    let mut e = market();
    assert_eq!(e.place_order(limit(0, Side::Ask, 100, 10), true), Ok((1, vec![])));
    let r = e.place_order(place(1, Side::Bid, OrderType::ImmediateOrCancel, Some(99), 10), true);
    assert_eq!(r, Ok((2, vec![])));
    assert_eq!(e.book().depth(Side::Bid), 0);
    assert_eq!(e.book().depth(Side::Ask), 1);
    assert_eq!(quote_of(&e, 1), balance(100_000, 0));
    assert_eq!(base_of(&e, 0), balance(90, 10));
}

#[test]
fn market_order_pays_the_makers_prices() {
    let mut e = market();
    assert_eq!(e.place_order(limit(0, Side::Ask, 100, 10), true), Ok((1, vec![])));
    assert_eq!(e.place_order(limit(0, Side::Ask, 110, 10), true), Ok((2, vec![])));
    let r = e.place_order(place(1, Side::Bid, OrderType::Market, None, 15), true);
    let (id, fills) = r.unwrap();
    assert_eq!(id, 3);
    assert_eq!(fills.iter().map(|f| (f.price, f.quantity)).collect::<Vec<_>>(), vec![(100, 10), (110, 5)]);
    assert_eq!(quote_of(&e, 1), balance(100_000 - 1000 - 550, 0));
    assert_eq!(base_of(&e, 1), balance(15, 0));
    assert_eq!(quote_of(&e, 0), balance(1550, 0));
    assert_eq!(base_of(&e, 0), balance(80, 5));
    let ask = e.book().best_ask().unwrap();
    assert_eq!((ask.id, ask.remaining, ask.status), (2, 5, OrderStatus::PartiallyFilled));
}

#[test]
fn limit_order_that_trades_in_part_escrows_only_the_rest() {
    let mut e = market();
    assert_eq!(e.place_order(limit(0, Side::Ask, 100, 10), true), Ok((1, vec![])));
    let r = e.place_order(limit(1, Side::Bid, 105, 15), true);
    assert_eq!(r.map(|p| p.1.len()), Ok(1));
    assert_eq!(quote_of(&e, 1), balance(100_000 - 1000 - 525, 525));
    assert_eq!(base_of(&e, 1), balance(10, 0));
    let bid = e.book().best_bid().unwrap();
    assert_eq!((bid.id, bid.price, bid.remaining, bid.status), (2, 105, 5, OrderStatus::PartiallyFilled));
}

#[test]
fn order_without_funds_is_rejected_and_changes_nothing() {
    let mut e = market();
    assert_eq!(e.place_order(limit(0, Side::Ask, 100, 10), true), Ok((1, vec![])));
    let before = snapshot(&e);
    assert_eq!(e.place_order(limit(0, Side::Ask, 100, 91), true), Err(DexError::InsufficientFunds));
    assert_eq!(snapshot(&e), before);
    assert_eq!(e.place_order(limit(1, Side::Bid, 100, 1001), true), Err(DexError::InsufficientFunds));
    assert_eq!(snapshot(&e), before);
    assert_eq!(e.place_order(limit(0, Side::Bid, 50, 1), true), Err(DexError::InsufficientFunds));
    assert_eq!(snapshot(&e), before);
}

#[test]
fn escrow_out_of_range_aborts_the_instruction() {
    let mut e = market();
    let before = snapshot(&e);
    assert_eq!(e.place_order(limit(1, Side::Bid, u64::MAX, 2), true), Err(DexError::ArithmeticOverflow));
    assert_eq!(snapshot(&e), before);
}

#[test]
fn malformed_orders_are_rejected_before_any_change() {
    let mut e = market();
    let before = snapshot(&e);
    assert_eq!(e.place_order(limit(0, Side::Ask, 100, 0), true), Err(DexError::InvalidQuantity));
    assert_eq!(e.place_order(limit(0, Side::Ask, 0, 5), true), Err(DexError::InvalidPrice));
    assert_eq!(
        e.place_order(place(0, Side::Ask, OrderType::Limit, None, 5), true),
        Err(DexError::InvalidPrice)
    );
    assert_eq!(
        e.place_order(place(0, Side::Ask, OrderType::ImmediateOrCancel, None, 5), true),
        Err(DexError::InvalidPrice)
    );
    let mut wrong = limit(0, Side::Ask, 100, 5);
    wrong.market_id = MARKET + 1;
    assert_eq!(e.place_order(wrong, true), Err(DexError::WrongMarket));
    assert_eq!(e.place_order(limit(0, Side::Ask, 100, 5), false), Err(DexError::Unauthorized));
    assert_eq!(e.place_order(limit(5, Side::Ask, 100, 5), true), Err(DexError::UnknownAccount));
    assert_eq!(snapshot(&e), before);
}

#[test]
fn cancel_releases_the_escrow_and_returns_the_remaining_quantity() {
    let mut e = market();
    assert_eq!(e.place_order(limit(1, Side::Bid, 100, 5), true), Ok((1, vec![])));
    assert_eq!(e.place_order(limit(0, Side::Ask, 100, 2), true).map(|p| p.1.len()), Ok(1));
    assert_eq!(quote_of(&e, 1), balance(99_500, 300));
    assert_eq!(e.cancel_order(cancel(1, 1), true), Ok(3));
    assert_eq!(quote_of(&e, 1), balance(99_800, 0));
    assert!(e.book().is_empty());
    assert_eq!(e.place_order(limit(0, Side::Ask, 120, 7), true), Ok((3, vec![])));
    assert_eq!(base_of(&e, 0), balance(91, 7));
    assert_eq!(e.cancel_order(cancel(0, 3), true), Ok(7));
    assert_eq!(base_of(&e, 0), balance(98, 0));
}

#[test]
fn cancelling_a_cancelled_order_fails_and_releases_nothing() {
    let mut e = market();
    assert_eq!(e.place_order(limit(1, Side::Bid, 100, 5), true), Ok((1, vec![])));
    assert_eq!(e.cancel_order(cancel(1, 1), true), Ok(5));
    let before = snapshot(&e);
    assert_eq!(e.cancel_order(cancel(1, 1), true), Err(DexError::OrderNotFound));
    assert_eq!(snapshot(&e), before);
    assert_eq!(DexError::OrderNotFound.kind(), dex::error::ErrorKind::State);
}

#[test]
fn cancelling_a_filled_order_fails_and_releases_nothing() {
    let mut e = market();
    assert_eq!(e.place_order(limit(0, Side::Ask, 100, 10), true), Ok((1, vec![])));
    assert_eq!(e.place_order(limit(1, Side::Bid, 100, 10), true).map(|p| p.1.len()), Ok(1));
    let before = snapshot(&e);
    assert_eq!(e.cancel_order(cancel(0, 1), true), Err(DexError::OrderNotFound));
    assert_eq!(e.cancel_order(cancel(1, 2), true), Err(DexError::OrderNotFound));
    assert_eq!(snapshot(&e), before);
}

#[test]
fn only_the_owner_cancels() {
    let mut e = market();
    assert_eq!(e.place_order(limit(1, Side::Bid, 100, 5), true), Ok((1, vec![])));
    let before = snapshot(&e);
    assert_eq!(e.cancel_order(cancel(0, 1), true), Err(DexError::Unauthorized));
    assert_eq!(e.cancel_order(cancel(1, 1), false), Err(DexError::Unauthorized));
    let mut wrong = cancel(1, 1);
    wrong.market_id = 1;
    assert_eq!(e.cancel_order(wrong, true), Err(DexError::WrongMarket));
    assert_eq!(snapshot(&e), before);
}

#[test]
fn close_market_needs_an_empty_book() {
    let mut e = market();
    assert_eq!(e.place_order(limit(1, Side::Bid, 100, 5), true), Ok((1, vec![])));
    assert_eq!(e.close_market(MARKET, true), Err(DexError::MarketNotEmpty));
    assert_eq!(e.phase(), Phase::Active);
    assert_eq!(e.cancel_order(cancel(1, 1), true), Ok(5));
    assert_eq!(e.close_market(MARKET + 1, true), Err(DexError::WrongMarket));
    assert_eq!(e.close_market(MARKET, false), Err(DexError::Unauthorized));
    assert_eq!(e.close_market(MARKET, true), Ok(()));
    assert_eq!(e.phase(), Phase::Closed);
    assert_eq!(e.place_order(limit(1, Side::Bid, 100, 5), true), Err(DexError::MarketNotInitialized));
    assert_eq!(e.initialize_market(1, 2, true), Err(DexError::MarketAlreadyInitialized));
}

#[test]
fn deposits_and_withdrawals_reach_the_available_balance() {
    let mut e = market();
    assert_eq!(e.withdraw(0, Asset::Base, 40), Ok(()));
    assert_eq!(base_of(&e, 0), balance(60, 0));
    assert_eq!(e.withdraw(0, Asset::Base, 61), Err(DexError::InsufficientFunds));
    assert_eq!(e.deposit(0, Asset::Base, u64::MAX), Err(DexError::ArithmeticOverflow));
    assert_eq!(e.deposit(9, Asset::Base, 1), Err(DexError::UnknownAccount));
    assert_eq!(e.withdraw(9, Asset::Base, 1), Err(DexError::UnknownAccount));
    assert_eq!(e.place_order(limit(0, Side::Ask, 100, 60), true), Ok((1, vec![])));
    assert_eq!(e.withdraw(0, Asset::Base, 1), Err(DexError::InsufficientFunds));
    assert_eq!(base_of(&e, 0), balance(0, 60));
}

#[test]
fn self_trade_returns_the_escrow_to_its_owner() {
    let mut e = market();
    assert_eq!(e.deposit(0, Asset::Quote, 5000), Ok(()));
    assert_eq!(e.place_order(limit(0, Side::Ask, 100, 10), true), Ok((1, vec![])));
    assert_eq!(e.place_order(limit(0, Side::Bid, 100, 10), true).map(|p| p.1.len()), Ok(1));
    assert_eq!(base_of(&e, 0), balance(100, 0));
    assert_eq!(quote_of(&e, 0), balance(5000, 0));
    assert!(e.book().is_empty());
}

#[test]
fn book_is_never_crossed_after_an_instruction() {
    let mut e = market();
    assert_eq!(e.deposit(0, Asset::Quote, 100_000), Ok(()));
    assert_eq!(e.deposit(1, Asset::Base, 100), Ok(()));
    let orders = [
        limit(0, Side::Ask, 105, 5),
        limit(1, Side::Bid, 100, 5),
        limit(1, Side::Bid, 106, 3),
        limit(0, Side::Ask, 99, 9),
        limit(0, Side::Bid, 101, 4),
        limit(1, Side::Ask, 101, 2),
        place(1, Side::Bid, OrderType::ImmediateOrCancel, Some(200), 1),
        limit(1, Side::Ask, 98, 30),
        limit(0, Side::Bid, 98, 50),
    ];
    for o in orders {
        assert!(e.place_order(o, true).is_ok());
        if let (Some(bid), Some(ask)) = (e.book().best_bid(), e.book().best_ask()) {
            assert!(bid.price < ask.price);
        }
    }
    assert_eq!(e.cancel_order(cancel(0, 9), true).is_ok(), e.book().best_bid().is_none());
}

#[test]
fn instructions_conserve_both_assets() {
    let mut e = market();
    let total = |e: &Exchange, asset: Asset| -> u128 {
        (0..e.ledger().len())
            .map(|a| e.ledger().balances(a).unwrap().get(asset))
            .map(|b| b.available as u128 + b.reserved as u128)
            .sum()
    };
    let log = [
        Instruction::PlaceOrder(limit(0, Side::Ask, 100, 10)),
        Instruction::PlaceOrder(limit(1, Side::Bid, 101, 14)),
        Instruction::CancelOrder(cancel(1, 2)),
        Instruction::PlaceOrder(limit(1, Side::Bid, 1, 1_000_000)),
        Instruction::PlaceOrder(place(0, Side::Ask, OrderType::Market, None, 3)),
    ];
    for instruction in log {
        let _ = e.process(Request { instruction, authorized: true });
        assert_eq!(total(&e, Asset::Base), 100);
        assert_eq!(total(&e, Asset::Quote), 100_000);
    }
}

#[test]
fn process_wraps_each_instruction_in_its_receipt() {
    let mut e = Exchange::new(MARKET);
    let a = e.open_account();
    assert_eq!(e.deposit(a, Asset::Base, 10), Ok(()));
    let run = |e: &mut Exchange, instruction: Instruction| e.process(Request { instruction, authorized: true });
    assert_eq!(
        run(&mut e, Instruction::InitializeMarket { base_asset: 1, quote_asset: 2 }),
        Ok(Outcome::MarketInitialized { market_id: MARKET })
    );
    assert_eq!(
        run(&mut e, Instruction::PlaceOrder(limit(a, Side::Ask, 100, 10))),
        Ok(Outcome::OrderPlaced { order_id: 1, fills: vec![] })
    );
    assert_eq!(
        run(&mut e, Instruction::CloseMarket { market_id: MARKET }),
        Err(DexError::MarketNotEmpty)
    );
    assert_eq!(
        run(&mut e, Instruction::CancelOrder(cancel(a, 1))),
        Ok(Outcome::OrderCancelled { released_quantity: 10 })
    );
    assert_eq!(run(&mut e, Instruction::CloseMarket { market_id: MARKET }), Ok(Outcome::MarketClosed));
    assert_eq!(
        e.process(Request {
            instruction: Instruction::CloseMarket { market_id: MARKET },
            authorized: false
        }),
        Err(DexError::MarketNotInitialized)
    );
}

#[test]
fn replaying_one_log_twice_gives_one_state() {
    let log: Vec<Request> = [
        Instruction::InitializeMarket { base_asset: 11, quote_asset: 22 },
        Instruction::PlaceOrder(limit(0, Side::Ask, 100, 10)),
        Instruction::PlaceOrder(limit(0, Side::Ask, 100, 7)),
        Instruction::PlaceOrder(limit(1, Side::Bid, 99, 5)),
        Instruction::PlaceOrder(limit(1, Side::Bid, 100, 12)),
        Instruction::CancelOrder(cancel(1, 3)),
        Instruction::CancelOrder(cancel(1, 3)),
        Instruction::PlaceOrder(place(1, Side::Bid, OrderType::Market, None, 50)),
        Instruction::PlaceOrder(limit(0, Side::Ask, 0, 1)),
        Instruction::CloseMarket { market_id: MARKET },
    ]
    .into_iter()
    .map(|instruction| Request { instruction, authorized: true })
    .collect();
    let fresh = || {
        let mut e = Exchange::new(MARKET);
        e.open_account();
        e.open_account();
        assert_eq!(e.deposit(0, Asset::Base, 100), Ok(()));
        assert_eq!(e.deposit(1, Asset::Quote, 100_000), Ok(()));
        e
    };
    let mut first = fresh();
    let mut second = fresh();
    first.replay(&log);
    second.replay(&log);
    assert_eq!(snapshot(&first), snapshot(&second));
    assert_eq!(first.phase(), Phase::Closed);
    assert_eq!(first.next_order_id(), 6);
    assert_eq!(base_of(&first, 0), balance(83, 0));
    assert_eq!(quote_of(&first, 0), balance(1700, 0));
    assert_eq!(base_of(&first, 1), balance(17, 0));
    assert_eq!(quote_of(&first, 1), balance(98_300, 0));
}

#[test]
fn validate_returns_the_incoming_order_with_the_next_numbers() {
    let mut e = market();
    assert_eq!(e.place_order(limit(0, Side::Ask, 100, 10), true), Ok((1, vec![])));
    let expected = Order {
        id: 2,
        owner: 1,
        market: MARKET,
        side: Side::Bid,
        order_type: OrderType::Limit,
        price: 99,
        remaining: 4,
        original: 4,
        seq: 2,
        status: OrderStatus::Open,
    };
    assert_eq!(e.validate(limit(1, Side::Bid, 99, 4), true), Ok(expected));
    assert_eq!(e.validate(limit(1, Side::Bid, 99, 4), false), Err(DexError::Unauthorized));
    assert_eq!(e.validate(limit(1, Side::Bid, 0, 4), true), Err(DexError::InvalidPrice));
    assert_eq!(e.validate(limit(1, Side::Bid, 99, 0), true), Err(DexError::InvalidQuantity));
    assert_eq!(e.validate(limit(2, Side::Bid, 99, 4), true), Err(DexError::UnknownAccount));
    let market_order = e.validate(place(1, Side::Bid, OrderType::Market, None, 4), true).unwrap();
    assert_eq!((market_order.price, market_order.order_type), (0, OrderType::Market));
    assert_eq!(e.next_order_id(), 2);
}

#[test]
fn rollback_returns_to_the_state_at_begin() {
    let mut e = market();
    assert_eq!(e.place_order(limit(0, Side::Ask, 100, 10), true), Ok((1, vec![])));
    let before = snapshot(&e);
    let tx = e.begin();
    assert_eq!(e.place_order(limit(1, Side::Bid, 100, 4), true).map(|p| p.1.len()), Ok(1));
    assert_eq!(e.cancel_order(cancel(0, 1), true), Ok(6));
    assert_eq!(e.close_market(MARKET, true), Ok(()));
    assert_eq!(e.open_account(), 2);
    assert_ne!(snapshot(&e), before);
    assert_eq!(e.rollback(tx), Stage::Rejected);
    assert_eq!(snapshot(&e), before);
    assert_eq!(e.phase(), Phase::Active);
    assert_eq!(e.place_order(limit(1, Side::Bid, 100, 4), true).map(|p| p.0), Ok(2));
}

#[test]
fn commit_keeps_what_the_unit_did() {
    let mut e = market();
    let mut tx = e.begin();
    tx.advance();
    assert_eq!(e.place_order(limit(0, Side::Ask, 100, 10), true), Ok((1, vec![])));
    tx.advance();
    tx.advance();
    let after = snapshot(&e);
    assert_eq!(e.commit(tx), Stage::Finalized);
    assert_eq!(snapshot(&e), after);
    assert_eq!(base_of(&e, 0), balance(90, 10));
}

#[test]
fn reserved_balances_are_the_escrow_of_the_resting_orders() {
    let mut e = market();
    assert_eq!(e.deposit(0, Asset::Quote, 10_000), Ok(()));
    assert_eq!(e.deposit(1, Asset::Base, 50), Ok(()));
    let orders = [
        limit(0, Side::Ask, 105, 5),
        limit(1, Side::Bid, 100, 5),
        limit(1, Side::Bid, 106, 3),
        limit(0, Side::Ask, 99, 9),
        limit(0, Side::Bid, 98, 4),
        limit(1, Side::Ask, 101, 2),
        place(1, Side::Bid, OrderType::Market, None, 3),
        limit(1, Side::Ask, 97, 30),
    ];
    for o in orders {
        assert!(e.place_order(o, true).is_ok());
        for account in 0..2 {
            let asks: u64 = e
                .book()
                .orders(Side::Ask)
                .iter()
                .filter(|o| o.owner == account)
                .map(|o| o.remaining)
                .sum();
            let bids: u64 = e
                .book()
                .orders(Side::Bid)
                .iter()
                .filter(|o| o.owner == account)
                .map(|o| o.price * o.remaining)
                .sum();
            assert_eq!(base_of(&e, account).reserved, asks);
            assert_eq!(quote_of(&e, account).reserved, bids);
        }
    }
}

#[test]
fn stages_follow_one_another() {
    assert_eq!(Stage::Received.next(), Stage::Validated);
    assert_eq!(Stage::Validated.next(), Stage::Matched);
    assert_eq!(Stage::Matched.next(), Stage::Settled);
    assert_eq!(Stage::Settled.next(), Stage::Finalized);
    assert_eq!(Stage::Finalized.next(), Stage::Finalized);
    assert_eq!(Stage::Rejected.next(), Stage::Rejected);
    assert!(Stage::Finalized.is_final());
    assert!(Stage::Rejected.is_final());
    assert!(!Stage::Received.is_final());
    assert!(!Stage::Validated.is_final());
    assert!(!Stage::Matched.is_final());
    assert!(!Stage::Settled.is_final());
}

#[test]
fn unit_of_work_passes_through_the_stages() {
    let mut e = market();
    let mut tx = e.begin();
    assert_eq!(tx.stage(), Stage::Received);
    tx.advance();
    assert_eq!(tx.stage(), Stage::Validated);
    tx.advance();
    assert_eq!(tx.stage(), Stage::Matched);
    tx.advance();
    assert_eq!(tx.stage(), Stage::Settled);
    assert_eq!(e.commit(tx), Stage::Finalized);
    let tx = e.begin();
    assert_eq!(tx.stage(), Stage::Received);
    assert_eq!(e.rollback(tx), Stage::Rejected);
}

#[test]
fn order_is_rejected_for_want_of_funds_exactly_below_its_cost() {
    let mut e = market();
    assert_eq!(e.place_order(limit(0, Side::Ask, 100, 10), true), Ok((1, vec![])));
    assert_eq!(e.place_order(limit(0, Side::Ask, 110, 10), true), Ok((2, vec![])));
    assert_eq!(e.withdraw(1, Asset::Quote, 100_000 - 1659), Ok(()));
    let order = limit(1, Side::Bid, 112, 16);
    assert_eq!(e.place_order(order, true), Err(DexError::InsufficientFunds));
    assert_eq!(e.deposit(1, Asset::Quote, 1), Ok(()));
    assert_eq!(e.place_order(order, true).map(|p| p.1.len()), Ok(2));
    assert_eq!(quote_of(&e, 1), balance(0, 0));
    assert_eq!(base_of(&e, 1), balance(16, 0));
    assert_eq!(quote_of(&e, 0), balance(1660, 0));
}

struct Parts {
    market: Market,
    phase: Phase,
    bids: Vec<Order>,
    asks: Vec<Order>,
    accounts: Vec<AccountBalances>,
    next_order_id: u64,
    next_seq: u64,
}

fn parts(e: &Exchange) -> Parts {
    Parts {
        market: e.market(),
        phase: e.phase(),
        bids: e.book().orders(Side::Bid),
        asks: e.book().orders(Side::Ask),
        accounts: (0..e.ledger().len()).map(|a| e.ledger().balances(a).unwrap()).collect(),
        next_order_id: e.next_order_id(),
        next_seq: e.next_seq(),
    }
}

fn restore(p: Parts) -> Result<Exchange, DexError> {
    let book = OrderBook::from_sides(p.market.id, p.bids, p.asks).unwrap();
    let ledger = Ledger::from_accounts(p.accounts).unwrap();
    Exchange::restore(p.market, p.phase, book, ledger, p.next_order_id, p.next_seq)
}

/// A market with two resting bids of account 1 and one resting ask of
/// account 0, after one fill.
fn busy_market() -> Exchange {
    let mut e = market();
    assert_eq!(e.place_order(limit(1, Side::Bid, 100, 5), true), Ok((1, vec![])));
    assert_eq!(e.place_order(limit(1, Side::Bid, 99, 7), true), Ok((2, vec![])));
    assert_eq!(e.place_order(limit(0, Side::Ask, 100, 2), true).map(|p| p.1.len()), Ok(1));
    assert_eq!(e.place_order(limit(0, Side::Ask, 105, 4), true), Ok((4, vec![])));
    e
}

#[test]
fn restored_state_is_the_state_that_was_stored() {
    let e = busy_market();
    let mut back = restore(parts(&e)).unwrap();
    assert_eq!(snapshot(&back), snapshot(&e));
    assert_eq!(back.market(), e.market());
    assert_eq!(back.phase(), e.phase());
    assert_eq!(back.next_seq(), 5);
    let mut on = busy_market();
    let order = place(0, Side::Ask, OrderType::Market, None, 6);
    assert_eq!(back.place_order(order, true), on.place_order(order, true));
    assert_eq!(snapshot(&back), snapshot(&on));
    let fresh = Exchange::new(MARKET);
    assert_eq!(snapshot(&restore(parts(&fresh)).unwrap()), snapshot(&fresh));
}

#[test]
fn stored_state_that_was_tampered_with_is_refused() {
    let refused = |change: fn(&mut Parts)| {
        let mut p = parts(&busy_market());
        change(&mut p);
        restore(p).err()
    };
    let invalid = Some(DexError::InvalidState);
    assert_eq!(refused(|_| {}), None);
    assert_eq!(refused(|p| p.accounts[1].quote.reserved += 1), invalid);
    assert_eq!(refused(|p| p.accounts[0].base.reserved -= 1), invalid);
    assert_eq!(refused(|p| p.accounts[0].quote.reserved = 1), invalid);
    assert_eq!(refused(|p| p.bids[0].remaining -= 1), invalid);
    assert_eq!(refused(|p| p.bids[1].owner = 0), invalid);
    assert_eq!(refused(|p| p.bids[1].owner = 2), invalid);
    assert_eq!(refused(|p| p.next_order_id = 4), invalid);
    assert_eq!(refused(|p| p.phase = Phase::Closed), invalid);
    assert_eq!(refused(|p| p.phase = Phase::Uninitialized), invalid);
    assert_eq!(refused(|p| p.accounts.truncate(1)), invalid);
    assert_eq!(refused(|p| p.accounts[1].quote.available -= 1), None);
    assert_eq!(refused(|p| p.next_order_id = 900), None);
    assert_eq!(refused(|p| p.next_seq = 0), invalid);
    assert_eq!(refused(|p| p.next_seq = 4), invalid);
    assert_eq!(refused(|p| p.bids[1].seq = 5), invalid);
    assert_eq!(refused(|p| p.next_seq = 900), None);
}

#[test]
fn stored_state_with_a_crossed_book_is_refused() {
    let mut p = parts(&busy_market());
    p.asks[0].price = 100;
    assert_eq!(restore(p).err(), Some(DexError::InvalidState));
    let mut p = parts(&busy_market());
    p.asks[0].price = 101;
    assert!(restore(p).is_ok());
}

#[test]
fn stored_state_of_another_market_is_refused() {
    let p = parts(&busy_market());
    let book = OrderBook::from_sides(MARKET, p.bids, p.asks).unwrap();
    let ledger = Ledger::from_accounts(p.accounts).unwrap();
    let other = Market { id: MARKET + 1, base_asset: 11, quote_asset: 22 };
    let r = Exchange::restore(other, p.phase, book, ledger, p.next_order_id, p.next_seq);
    assert_eq!(r.err(), Some(DexError::InvalidState));
}

#[test]
fn later_order_rests_behind_earlier_ones_of_its_price() {
    let mut e = market();
    assert_eq!(e.deposit(0, Asset::Quote, 10_000), Ok(()));
    assert_eq!(e.place_order(limit(1, Side::Bid, 100, 5), true), Ok((1, vec![])));
    assert_eq!(e.place_order(limit(0, Side::Bid, 100, 5), true), Ok((2, vec![])));
    assert_eq!(e.place_order(limit(1, Side::Bid, 101, 5), true), Ok((3, vec![])));
    assert_eq!(e.place_order(limit(0, Side::Bid, 100, 5), true), Ok((4, vec![])));
    let bids = e.book().orders(Side::Bid);
    assert_eq!(bids.iter().map(|o| (o.id, o.seq)).collect::<Vec<_>>(), vec![(3, 3), (1, 1), (2, 2), (4, 4)]);
    let mut back = restore(parts(&e)).unwrap();
    assert_eq!(back.place_order(limit(1, Side::Bid, 100, 1), true), Ok((5, vec![])));
    let last = back.book().orders(Side::Bid)[4];
    assert_eq!((last.id, last.seq), (5, 5));
    let (_, fills) = back.place_order(place(0, Side::Ask, OrderType::Market, None, 11), true).unwrap();
    assert_eq!(
        fills.iter().map(|f| (f.maker_order_id, f.quantity)).collect::<Vec<_>>(),
        vec![(3, 5), (1, 5), (2, 1)]
    );
}
