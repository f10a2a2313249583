//! The matching engine: it matches an incoming order against the resting
//! orders of the other side, best first, and lets what is left of a limit
//! order rest.

use crate::book::{
    consumed, escrow_of, lemma_consumed, lemma_escrow_remove, lemma_escrow_update,
    lemma_filled_front, lemma_inserted, owed, stored, BookState, Limits, OrderBook,
};
use crate::error::DexError;
use crate::order::{Fill, Order, OrderStatus, OrderType, Side};
use crate::settlement::{base_volume, quote_volume, sold, spent};
use vstd::prelude::*;

verus! {

/// What one pass over the resting orders of one side yields.
pub struct MatchOutcome {
    /// The fills, in the order in which they were made.
    pub fills: Seq<Fill>,
    /// The resting orders that are left, best first.
    pub makers: Seq<Order>,
    /// What is left of the incoming quantity.
    pub left: u64,
}

/// The outcome of matching `quantity` of the incoming order `taker` against
/// `makers`, the resting orders of the other side, best first. As long as
/// something is left and the best resting order's price crosses, the two
/// trade the smaller of their quantities at the resting order's price. A
/// resting order that is filled leaves the book; one that is not stays at
/// the front with what remains of it.
pub open spec fn match_outcome(makers: Seq<Order>, taker: Order, quantity: u64) -> MatchOutcome
    decreases makers.len(),
{
    if quantity == 0 || makers.len() == 0 || !taker.spec_crosses(makers[0].price) {
        MatchOutcome { fills: Seq::empty(), makers, left: quantity }
    } else {
        let maker = makers[0];
        if quantity < maker.remaining {
            MatchOutcome {
                fills: seq![Fill::spec_between(maker, taker, quantity)],
                makers: makers.update(0, maker.spec_reduced(quantity)),
                left: 0,
            }
        } else {
            let rest = match_outcome(
                makers.skip(1),
                taker,
                (quantity - maker.remaining) as u64,
            );
            MatchOutcome {
                fills: seq![Fill::spec_between(maker, taker, maker.remaining)] + rest.fills,
                makers: rest.makers,
                left: rest.left,
            }
        }
    }
}

/// Why `incoming` cannot be matched against `book`, if it cannot. The
/// market is looked at first, then the price, the quantity and the id.
pub open spec fn match_check(book: BookState, incoming: Order) -> Result<(), DexError> {
    if incoming.market != book.market {
        Err(DexError::WrongMarket)
    } else if incoming.order_type != OrderType::Market && incoming.price == 0 {
        Err(DexError::InvalidPrice)
    } else if incoming.remaining == 0 || incoming.remaining > incoming.original {
        Err(DexError::InvalidQuantity)
    } else if book.contains_id(incoming.id) {
        Err(DexError::DuplicateOrderId)
    } else {
        Ok(())
    }
}

/// What matching one incoming order does.
pub struct Matched {
    /// The book afterwards.
    pub book: BookState,
    /// The fills, in the order in which they were made.
    pub fills: Seq<Fill>,
    /// The part of the incoming order that now rests in the book, if any.
    pub remainder: Option<Order>,
}

/// Matching `incoming` against `book`: the other side is swept as
/// `match_outcome` says; what is left of a limit order then rests on its own
/// side, and what is left of any other order is discarded.
pub open spec fn matched(book: BookState, incoming: Order) -> Matched {
    let other = incoming.side.spec_opposite();
    let outcome = match_outcome(book.side(other), incoming, incoming.remaining);
    let swept = book.with_side(other, outcome.makers);
    if outcome.left > 0 && incoming.order_type == OrderType::Limit {
        let rest = Order { remaining: outcome.left, ..incoming };
        Matched { book: swept.inserted(rest), fills: outcome.fills, remainder: Some(stored(rest)) }
    } else {
        Matched { book: swept, fills: outcome.fills, remainder: None }
    }
}

/// What holds of every outcome of a pass: the resting side is the old one
/// with some orders filled from the front, `r.0` of them in full and `r.1`
/// of the next; nothing is left of the incoming quantity unless the side is
/// exhausted or its best price no longer crosses; the fills and what is
/// left add up to the incoming quantity; and the fills are those of the
/// orders filled, one each and in their order, each for the whole of its
/// order but the last, which may be for the part `r.1`, all at prices that
/// the incoming order's limit allows.
pub proof fn lemma_match_outcome(makers: Seq<Order>, taker: Order, quantity: u64) -> (r: (
    int,
    u64,
))
    requires
        forall|i: int| 0 <= i < makers.len() ==> (#[trigger] makers[i]).remaining > 0,
    ensures
        0 <= r.0 <= makers.len(),
        r.1 > 0 ==> r.0 < makers.len() && r.1 < makers[r.0].remaining,
        match_outcome(makers, taker, quantity).makers == consumed(makers, r.0, r.1),
        match_outcome(makers, taker, quantity).left <= quantity,
        match_outcome(makers, taker, quantity).left > 0 ==> r.1 == 0 && (r.0 == makers.len()
            || !taker.spec_crosses(makers[r.0].price)),
        base_volume(match_outcome(makers, taker, quantity).fills) + match_outcome(
            makers,
            taker,
            quantity,
        ).left == quantity,
        match_outcome(makers, taker, quantity).fills.len() == r.0 + if r.1 > 0 {
            1int
        } else {
            0int
        },
        forall|k: int|
            0 <= k < match_outcome(makers, taker, quantity).fills.len() ==> (
            #[trigger] match_outcome(makers, taker, quantity).fills[k]) == Fill::spec_between(
                makers[k],
                taker,
                if k < r.0 {
                    makers[k].remaining
                } else {
                    r.1
                },
            ) && taker.spec_crosses(makers[k].price),
    decreases makers.len(),
{
    let outcome = match_outcome(makers, taker, quantity);
    if quantity == 0 || makers.len() == 0 || !taker.spec_crosses(makers[0].price) {
        assert(makers.skip(0) =~= makers);
        (0, 0)
    } else {
        let maker = makers[0];
        if quantity < maker.remaining {
            assert(makers.skip(0) =~= makers);
            assert(outcome.fills.skip(1) =~= Seq::<Fill>::empty());
            assert(base_volume(Seq::<Fill>::empty()) == 0);
            assert(base_volume(outcome.fills) == quantity);
            (0, quantity)
        } else {
            let tail = makers.skip(1);
            let left = (quantity - maker.remaining) as u64;
            let rest = match_outcome(tail, taker, left);
            let r = lemma_match_outcome(tail, taker, left);
            assert(tail.skip(r.0) =~= makers.skip(r.0 + 1));
            assert(outcome.fills.skip(1) =~= rest.fills);
            assert(base_volume(outcome.fills) == maker.remaining + base_volume(rest.fills));
            assert forall|k: int| 0 <= k < outcome.fills.len() implies #[trigger] outcome.fills[k]
                == Fill::spec_between(
                makers[k],
                taker,
                if k < r.0 + 1 {
                    makers[k].remaining
                } else {
                    r.1
                },
            ) && taker.spec_crosses(makers[k].price) by {
                if k > 0 {
                    assert(outcome.fills[k] == rest.fills[k - 1]);
                    assert(tail[k - 1] == makers[k]);
                }
            }
            (r.0 + 1, r.1)
        }
    }
}

/// What a pass takes from the escrow of the resting side is what the
/// makers deliver in its fills: base units where the resting side sells,
/// quote units where it buys. What the other leg of the fills asks for, it
/// asks of the incoming order's owner alone.
pub proof fn lemma_match_escrow(makers: Seq<Order>, taker: Order, quantity: u64, account: usize)
    requires
        forall|i: int|
            0 <= i < makers.len() ==> (#[trigger] makers[i]).side == taker.side.spec_opposite(),
    ensures
        match taker.side {
            Side::Bid => escrow_of(match_outcome(makers, taker, quantity).makers, account)
                == escrow_of(makers, account) - sold(
                match_outcome(makers, taker, quantity).fills,
                account,
            ) && spent(match_outcome(makers, taker, quantity).fills, account) == if taker.owner
                == account {
                quote_volume(match_outcome(makers, taker, quantity).fills)
            } else {
                0
            },
            Side::Ask => escrow_of(match_outcome(makers, taker, quantity).makers, account)
                == escrow_of(makers, account) - spent(
                match_outcome(makers, taker, quantity).fills,
                account,
            ) && sold(match_outcome(makers, taker, quantity).fills, account) == if taker.owner
                == account {
                base_volume(match_outcome(makers, taker, quantity).fills)
            } else {
                0
            },
        },
    decreases makers.len(),
{
    let outcome = match_outcome(makers, taker, quantity);
    let none = Seq::<Fill>::empty();
    assert(sold(none, account) == 0 && spent(none, account) == 0);
    assert(base_volume(none) == 0 && quote_volume(none) == 0);
    if quantity == 0 || makers.len() == 0 || !taker.spec_crosses(makers[0].price) {
    } else {
        let maker = makers[0];
        if quantity < maker.remaining {
            let f = Fill::spec_between(maker, taker, quantity);
            let reduced = maker.spec_reduced(quantity);
            assert(outcome.fills.skip(1) =~= none);
            assert(outcome.fills[0] == f);
            lemma_escrow_update(makers, 0, reduced, account);
            assert(maker.price * (maker.remaining - quantity) == maker.price * maker.remaining
                - maker.price * quantity) by (nonlinear_arith);
            assert(owed(reduced, account) == owed(maker, account) - if maker.owner == account {
                match maker.side {
                    Side::Ask => quantity as int,
                    Side::Bid => maker.price * quantity,
                }
            } else {
                0
            });
        } else {
            let tail = makers.skip(1);
            let rest = match_outcome(tail, taker, (quantity - maker.remaining) as u64);
            let f = Fill::spec_between(maker, taker, maker.remaining);
            lemma_match_escrow(tail, taker, (quantity - maker.remaining) as u64, account);
            assert(makers.remove(0) =~= tail);
            lemma_escrow_remove(makers, 0, account);
            assert(outcome.fills.skip(1) =~= rest.fills);
            assert(outcome.fills[0] == f);
        }
    }
}

/// Matching keeps a well-formed book well formed, and not crossed if it was
/// not. The book gains no id but that of the incoming order, and holds that
/// one exactly when a remainder rests.
pub proof fn lemma_matched(book: BookState, incoming: Order)
    requires
        book.wf(),
        match_check(book, incoming) is Ok,
    ensures
        matched(book, incoming).book.wf(),
        matched(book, incoming).book.market == book.market,
        book.uncrossed() ==> matched(book, incoming).book.uncrossed(),
        forall|x: u64|
            matched(book, incoming).book.contains_id(x) ==> x == incoming.id || book.contains_id(x),
        forall|x: u64|
            crate::book::has_id(matched(book, incoming).book.side(incoming.side), x) ==> x
                == incoming.id || crate::book::has_id(book.side(incoming.side), x),
        forall|l: Limits|
            book.bounded(l) && l.admits(incoming) ==> #[trigger] matched(
                book,
                incoming,
            ).book.bounded(l),
        matched(book, incoming).book.side(incoming.side.spec_opposite()) == match_outcome(
            book.side(incoming.side.spec_opposite()),
            incoming,
            incoming.remaining,
        ).makers,
        forall|a: usize| #[trigger]
            escrow_of(matched(book, incoming).book.side(incoming.side), a) == escrow_of(
                book.side(incoming.side),
                a,
            ) + match matched(book, incoming).remainder {
                Some(o) => owed(o, a),
                None => 0,
            },
        match matched(book, incoming).remainder {
            Some(o) => o.is_resting() && o == stored(
                Order {
                    remaining: match_outcome(
                        book.side(incoming.side.spec_opposite()),
                        incoming,
                        incoming.remaining,
                    ).left,
                    ..incoming
                },
            ) && matched(book, incoming).book.lookup(incoming.id) == Some(o),
            None => !matched(book, incoming).book.contains_id(incoming.id),
        },
{
    let other = incoming.side.spec_opposite();
    let makers = book.side(other);
    let outcome = match_outcome(makers, incoming, incoming.remaining);
    assert forall|i: int| 0 <= i < makers.len() implies (#[trigger] makers[i]).remaining > 0 by {
        assert(makers[i].is_resting());
    }
    let r = lemma_match_outcome(makers, incoming, incoming.remaining);
    lemma_filled_front(book, other, r.0, r.1);
    lemma_consumed(makers, r.0, r.1, other, book.market);
    let swept = book.with_side(other, outcome.makers);
    if outcome.left > 0 && incoming.order_type == OrderType::Limit {
        let rest = Order { remaining: outcome.left, ..incoming };
        assert(swept.side(incoming.side) == book.side(incoming.side));
        assert(!swept.contains_id(rest.id));
        lemma_inserted(swept, rest);
        if swept.side(other).len() > 0 {
            assert(swept.side(other)[0].price == makers[0 + r.0].price);
        }
        assert forall|l: Limits|
            book.bounded(l) && l.admits(incoming) implies #[trigger] matched(
            book,
            incoming,
        ).book.bounded(l) by {
            assert(swept.bounded(l));
        }
    }
}

/// Walks the candidates for `taker` and works out the fills, without
/// touching the book: how many resting orders are filled in full, how much
/// of the one behind them, and what is left of the incoming quantity.
fn sweep(book: &OrderBook, taker: Order) -> (r: (Vec<Fill>, usize, u64, u64))
    requires
        book.wf(),
    ensures
        ({
            let makers = book@.side(taker.side.spec_opposite());
            let outcome = match_outcome(makers, taker, taker.remaining);
            &&& r.0@ == outcome.fills
            &&& r.1 <= makers.len()
            &&& r.2 > 0 ==> r.1 < makers.len() && r.2 < makers[r.1 as int].remaining
            &&& outcome.makers == consumed(makers, r.1 as int, r.2)
            &&& r.3 == outcome.left
            &&& r.3 <= taker.remaining
            &&& r.3 > 0 ==> r.2 == 0 && (r.1 == makers.len() || !taker.spec_crosses(
                makers[r.1 as int].price,
            ))
        }),
{
    let ghost makers = book@.side(taker.side.spec_opposite());
    let ghost total = match_outcome(makers, taker, taker.remaining);
    let mut cursor = book.iterate_matchable(taker);
    let depth = book.depth(taker.side.opposite());
    let mut fills: Vec<Fill> = Vec::new();
    let mut left: u64 = taker.remaining;
    let mut count: usize = 0;
    let mut partial: u64 = 0;
    assert(makers.skip(0) =~= makers);
    loop
        invariant_except_break
            partial == 0,
            cursor.taker() == taker,
            cursor.rank() == count,
            ({
                let rest = match_outcome(makers.skip(count as int), taker, left);
                &&& total.fills == fills@ + rest.fills
                &&& total.makers == rest.makers
                &&& total.left == rest.left
            }),
        invariant
            book.wf(),
            makers == book@.side(taker.side.spec_opposite()),
            total == match_outcome(makers, taker, taker.remaining),
            count <= makers.len(),
            depth == makers.len(),
            left <= taker.remaining,
        ensures
            total.fills == fills@,
            total.left == left,
            total.makers == consumed(makers, count as int, partial),
            partial > 0 ==> count < makers.len() && partial < makers[count as int].remaining,
            left > 0 ==> partial == 0 && (count == makers.len() || !taker.spec_crosses(
                makers[count as int].price,
            )),
        decreases makers.len() - count,
    {
        let ghost here = makers.skip(count as int);
        let ghost rest = match_outcome(here, taker, left);
        if left == 0 {
            assert(fills@ + rest.fills =~= fills@);
            break ;
        }
        match cursor.next(book) {
            None => {
                assert(fills@ + rest.fills =~= fills@);
                break ;
            },
            Some(maker) => {
                assert(here[0] == maker);
                if left < maker.remaining {
                    let ghost before = fills@;
                    fills.push(Fill::between(maker, taker, left));
                    assert(fills@ =~= before + rest.fills);
                    partial = left;
                    left = 0;
                    break ;
                } else {
                    let ghost before = fills@;
                    let ghost next = match_outcome(
                        here.skip(1),
                        taker,
                        (left - maker.remaining) as u64,
                    );
                    fills.push(Fill::between(maker, taker, maker.remaining));
                    left = left - maker.remaining;
                    count = count + 1;
                    assert(here.skip(1) =~= makers.skip(count as int));
                    assert(before + rest.fills =~= fills@ + next.fills);
                }
            },
        }
    }
    (fills, count, partial, left)
}

/// Matches `incoming` against `book` in price-time priority. Returns the
/// fills in the order in which they were made and, for a limit order of
/// which something is left, the order as it now rests in the book. What is
/// left of a market or immediate-or-cancel order is discarded. Fails, and
/// changes nothing, if the order is of another market, is not a market
/// order and has no price, has no remaining quantity or more than its
/// original one, or has an id that the book already holds. A book that was
/// not crossed is not crossed afterwards.
pub fn match_order(incoming: Order, book: &mut OrderBook) -> (r: Result<
    (Vec<Fill>, Option<Order>),
    DexError,
>)
    requires
        old(book).wf(),
    ensures
        final(book).wf(),
        old(book)@.uncrossed() ==> final(book)@.uncrossed(),
        match match_check(old(book)@, incoming) {
            Err(e) => r matches Err(x) && x == e && final(book)@ == old(book)@,
            Ok(_) => {
                &&& r matches Ok(pair)
                &&& pair.0@ == matched(old(book)@, incoming).fills
                &&& pair.1 == matched(old(book)@, incoming).remainder
                &&& final(book)@ == matched(old(book)@, incoming).book
            },
        },
{
    if incoming.market != book.market_id() {
        return Err(DexError::WrongMarket);
    }
    match incoming.order_type {
        OrderType::Market => {},
        _ => {
            if incoming.price == 0 {
                return Err(DexError::InvalidPrice);
            }
        },
    }
    if incoming.remaining == 0 || incoming.remaining > incoming.original {
        return Err(DexError::InvalidQuantity);
    }
    match book.get(incoming.id) {
        Some(_) => {
            return Err(DexError::DuplicateOrderId);
        },
        None => {},
    }
    let (fills, count, partial, left) = sweep(book, incoming);
    let other = incoming.side.opposite();
    proof {
        lemma_consumed(book@.side(other), count as int, partial, other, book@.market);
    }
    book.fill_front(other, count, partial);
    let rests = match incoming.order_type {
        OrderType::Limit => left > 0,
        _ => false,
    };
    if rests {
        let rest = Order { remaining: left, ..incoming };
        proof {
            let swept = book@;
            let makers = old(book)@.side(other);
            assert(swept.side(incoming.side) == old(book)@.side(incoming.side));
            assert(!swept.contains_id(rest.id));
            lemma_inserted(swept, rest);
            if swept.side(other).len() > 0 {
                assert(swept.side(other)[0].price == makers[0 + count].price);
            }
        }
        let entered = book.insert(rest);
        assert(entered is Ok);
        let resting = Order {
            status: if left == incoming.original {
                OrderStatus::Open
            } else {
                OrderStatus::PartiallyFilled
            },
            ..rest
        };
        Ok((fills, Some(resting)))
    } else {
        Ok((fills, None))
    }
}

} // verus!
