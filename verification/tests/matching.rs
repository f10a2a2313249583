use dex::book::OrderBook;
use dex::error::DexError;
use dex::matching::match_order;
use dex::order::{Fill, Order, OrderStatus, OrderType, Side};

fn resting(id: u64, owner: usize, side: Side, price: u64, quantity: u64, seq: u64) -> Order {
    Order {
        id,
        owner,
        market: 1,
        side,
        order_type: OrderType::Limit,
        price,
        remaining: quantity,
        original: quantity,
        seq,
        status: OrderStatus::Open,
    }
}

fn incoming(id: u64, side: Side, order_type: OrderType, price: u64, quantity: u64) -> Order {
    Order {
        id,
        owner: 9,
        market: 1,
        side,
        order_type,
        price,
        remaining: quantity,
        original: quantity,
        seq: id,
        status: OrderStatus::Open,
    }
}

fn fill(maker_id: u64, maker: usize, taker_id: u64, side: Side, price: u64, quantity: u64) -> Fill {
    Fill {
        maker_order_id: maker_id,
        taker_order_id: taker_id,
        price,
        quantity,
        maker,
        taker: 9,
        taker_side: side,
    }
}

fn book_with(orders: &[Order]) -> OrderBook {
    let mut book = OrderBook::new(1);
    for o in orders {
        assert_eq!(book.insert(*o), Ok(()));
    }
    book
}

#[test]
fn bid_that_meets_the_resting_ask_fills_it_whole() {
    let mut book = book_with(&[resting(1, 0, Side::Ask, 100, 10, 1)]);
    let r = match_order(incoming(2, Side::Bid, OrderType::Limit, 100, 10), &mut book);
    assert_eq!(r, Ok((vec![fill(1, 0, 2, Side::Bid, 100, 10)], None)));
    assert!(book.is_empty());
    assert_eq!(book.get(1), None);
    assert_eq!(resting(1, 0, Side::Ask, 100, 10, 1).reduced(10).status, OrderStatus::Filled);
}

#[test]
fn limit_bid_against_an_empty_book_rests_open() {
    let mut book = OrderBook::new(1);
    let r = match_order(incoming(1, Side::Bid, OrderType::Limit, 100, 5), &mut book);
    let expected = incoming(1, Side::Bid, OrderType::Limit, 100, 5);
    assert_eq!(r, Ok((vec![], Some(expected))));
    assert_eq!(book.best_bid(), Some(expected));
    assert_eq!(book.best_bid().map(|o| (o.remaining, o.status)), Some((5, OrderStatus::Open)));
    assert_eq!(book.depth(Side::Ask), 0);
}

#[test]
fn immediate_or_cancel_bid_below_the_best_ask_is_discarded() {
    let mut book = book_with(&[resting(1, 0, Side::Ask, 100, 10, 1)]);
    let r = match_order(incoming(2, Side::Bid, OrderType::ImmediateOrCancel, 99, 10), &mut book);
    assert_eq!(r, Ok((vec![], None)));
    assert_eq!(book.depth(Side::Bid), 0);
    assert_eq!(book.orders(Side::Ask), vec![resting(1, 0, Side::Ask, 100, 10, 1)]);
}

#[test]
fn smaller_taker_leaves_the_maker_partially_filled() {
    let mut book = book_with(&[resting(1, 0, Side::Ask, 100, 10, 1)]);
    let r = match_order(incoming(2, Side::Bid, OrderType::Limit, 100, 4), &mut book);
    assert_eq!(r, Ok((vec![fill(1, 0, 2, Side::Bid, 100, 4)], None)));
    let left = book.best_ask().unwrap();
    assert_eq!(left.remaining, 6);
    assert_eq!(left.original, 10);
    assert_eq!(left.status, OrderStatus::PartiallyFilled);
    assert_eq!(book.depth(Side::Bid), 0);
}

#[test]
fn larger_limit_taker_trades_at_the_makers_price_and_rests_with_the_rest() {
    let mut book = book_with(&[resting(1, 0, Side::Ask, 100, 10, 1)]);
    let r = match_order(incoming(2, Side::Bid, OrderType::Limit, 101, 15), &mut book);
    let mut rest = incoming(2, Side::Bid, OrderType::Limit, 101, 15);
    rest.remaining = 5;
    rest.status = OrderStatus::PartiallyFilled;
    assert_eq!(r, Ok((vec![fill(1, 0, 2, Side::Bid, 100, 10)], Some(rest))));
    assert_eq!(book.best_bid(), Some(rest));
    assert_eq!(book.best_ask(), None);
}

#[test]
fn makers_are_taken_in_price_time_priority() {
    let mut book = book_with(&[
        resting(3, 2, Side::Ask, 101, 5, 3),
        resting(2, 1, Side::Ask, 100, 5, 2),
        resting(1, 0, Side::Ask, 100, 5, 1),
        resting(4, 3, Side::Ask, 102, 5, 4),
    ]);
    let r = match_order(incoming(7, Side::Bid, OrderType::Limit, 101, 12), &mut book);
    assert_eq!(
        r,
        Ok((
            vec![
                fill(1, 0, 7, Side::Bid, 100, 5),
                fill(2, 1, 7, Side::Bid, 100, 5),
                fill(3, 2, 7, Side::Bid, 101, 2),
            ],
            None
        ))
    );
    let asks = book.orders(Side::Ask);
    assert_eq!(asks.len(), 2);
    assert_eq!((asks[0].id, asks[0].remaining, asks[0].status), (3, 3, OrderStatus::PartiallyFilled));
    assert_eq!((asks[1].id, asks[1].remaining, asks[1].status), (4, 5, OrderStatus::Open));
}

#[test]
fn limit_taker_stops_at_its_limit_and_rests_uncrossed() {
    let mut book = book_with(&[
        resting(1, 0, Side::Ask, 100, 5, 1),
        resting(2, 1, Side::Ask, 103, 5, 2),
    ]);
    let r = match_order(incoming(7, Side::Bid, OrderType::Limit, 102, 8), &mut book);
    let (fills, remainder) = r.unwrap();
    assert_eq!(fills, vec![fill(1, 0, 7, Side::Bid, 100, 5)]);
    assert_eq!(remainder.map(|o| (o.remaining, o.price)), Some((3, 102)));
    let bid = book.best_bid().unwrap();
    let ask = book.best_ask().unwrap();
    assert_eq!((bid.price, ask.price), (102, 103));
    assert!(bid.price < ask.price);
}

#[test]
fn market_sell_sweeps_the_bids_and_its_remainder_is_discarded() {
    let mut book = book_with(&[
        resting(1, 0, Side::Bid, 90, 5, 1),
        resting(2, 1, Side::Bid, 100, 5, 2),
    ]);
    let r = match_order(incoming(7, Side::Ask, OrderType::Market, 0, 20), &mut book);
    assert_eq!(
        r,
        Ok((vec![fill(2, 1, 7, Side::Ask, 100, 5), fill(1, 0, 7, Side::Ask, 90, 5)], None))
    );
    assert!(book.is_empty());
}

#[test]
fn market_buy_against_an_empty_book_does_nothing() {
    let mut book = OrderBook::new(1);
    let r = match_order(incoming(7, Side::Bid, OrderType::Market, 0, 20), &mut book);
    assert_eq!(r, Ok((vec![], None)));
    assert!(book.is_empty());
}

#[test]
fn immediate_or_cancel_takes_what_crosses_and_drops_the_rest() {
    let mut book = book_with(&[
        resting(1, 0, Side::Bid, 100, 5, 1),
        resting(2, 1, Side::Bid, 98, 5, 2),
    ]);
    let r = match_order(incoming(7, Side::Ask, OrderType::ImmediateOrCancel, 99, 8), &mut book);
    assert_eq!(r, Ok((vec![fill(1, 0, 7, Side::Ask, 100, 5)], None)));
    assert_eq!(book.depth(Side::Ask), 0);
    assert_eq!(book.orders(Side::Bid), vec![resting(2, 1, Side::Bid, 98, 5, 2)]);
}

#[test]
fn limit_ask_rests_behind_earlier_asks_of_its_price() {
    let mut book = book_with(&[resting(1, 0, Side::Ask, 100, 5, 1)]);
    let r = match_order(incoming(2, Side::Ask, OrderType::Limit, 100, 7), &mut book);
    assert_eq!(r.map(|p| p.0.len()), Ok(0));
    let asks = book.orders(Side::Ask);
    assert_eq!(asks.iter().map(|o| o.id).collect::<Vec<u64>>(), vec![1, 2]);
}

#[test]
fn zero_quantity_is_rejected() {
    let mut book = book_with(&[resting(1, 0, Side::Ask, 100, 10, 1)]);
    let r = match_order(incoming(2, Side::Bid, OrderType::Limit, 100, 0), &mut book);
    assert_eq!(r, Err(DexError::InvalidQuantity));
    let r = match_order(incoming(2, Side::Bid, OrderType::Market, 0, 0), &mut book);
    assert_eq!(r, Err(DexError::InvalidQuantity));
    assert_eq!(book.orders(Side::Ask), vec![resting(1, 0, Side::Ask, 100, 10, 1)]);
}

#[test]
fn zero_limit_price_is_rejected_but_a_market_order_needs_none() {
    let mut book = book_with(&[resting(1, 0, Side::Ask, 100, 10, 1)]);
    let r = match_order(incoming(2, Side::Bid, OrderType::Limit, 0, 5), &mut book);
    assert_eq!(r, Err(DexError::InvalidPrice));
    let r = match_order(incoming(2, Side::Bid, OrderType::ImmediateOrCancel, 0, 5), &mut book);
    assert_eq!(r, Err(DexError::InvalidPrice));
    let r = match_order(incoming(2, Side::Bid, OrderType::Market, 0, 5), &mut book);
    assert_eq!(r, Ok((vec![fill(1, 0, 2, Side::Bid, 100, 5)], None)));
}

#[test]
fn order_for_another_market_is_rejected() {
    let mut book = book_with(&[resting(1, 0, Side::Ask, 100, 10, 1)]);
    let mut other = incoming(2, Side::Bid, OrderType::Limit, 100, 5);
    other.market = 2;
    assert_eq!(match_order(other, &mut book), Err(DexError::WrongMarket));
    assert_eq!(book.orders(Side::Ask), vec![resting(1, 0, Side::Ask, 100, 10, 1)]);
}

#[test]
fn order_with_an_id_of_the_book_is_rejected() {
    let mut book = book_with(&[resting(1, 0, Side::Ask, 100, 10, 1)]);
    let r = match_order(incoming(1, Side::Bid, OrderType::Limit, 100, 5), &mut book);
    assert_eq!(r, Err(DexError::DuplicateOrderId));
    assert_eq!(book.orders(Side::Ask), vec![resting(1, 0, Side::Ask, 100, 10, 1)]);
}

#[test]
fn fills_and_remainder_add_up_to_the_incoming_quantity() {
    let mut book = book_with(&[
        resting(1, 0, Side::Ask, 100, 3, 1),
        resting(2, 1, Side::Ask, 101, 4, 2),
        resting(3, 2, Side::Ask, 105, 9, 3),
    ]);
    let (fills, remainder) =
        match_order(incoming(7, Side::Bid, OrderType::Limit, 102, 20), &mut book).unwrap();
    let filled: u64 = fills.iter().map(|f| f.quantity).sum();
    assert_eq!(filled, 7);
    assert_eq!(remainder.map(|o| o.remaining), Some(13));
}

#[test]
fn fill_names_buyer_and_seller_by_the_takers_side() {
    let f = fill(1, 0, 2, Side::Bid, 100, 10);
    assert_eq!(f.buyer(), 9);
    assert_eq!(f.seller(), 0);
    let g = fill(1, 0, 2, Side::Ask, 100, 10);
    assert_eq!(g.buyer(), 0);
    assert_eq!(g.seller(), 9);
    let maker = resting(1, 0, Side::Ask, 100, 10, 1);
    let taker = incoming(2, Side::Bid, OrderType::Limit, 105, 10);
    assert_eq!(Fill::between(maker, taker, 10), f);
}
