//! The order book: resting bids and asks, each side kept in price-time
//! priority with the best order first.

use crate::error::DexError;
use crate::order::{resting_status, Order, OrderStatus, Side};
use vstd::prelude::*;

verus! {

/// Whether some order of `s` has the id `id`.
pub open spec fn has_id(s: Seq<Order>, id: u64) -> bool {
    exists|i: int| 0 <= i < s.len() && (#[trigger] s[i]).id == id
}

/// The place in `s` of the order with the id `id`, where there is one.
pub open spec fn rank_of(s: Seq<Order>, id: u64) -> int {
    choose|i: int| 0 <= i < s.len() && (#[trigger] s[i]).id == id
}

/// Every order of `s` is a resting order of `side` in `market`.
pub open spec fn side_members(s: Seq<Order>, side: Side, market: u64) -> bool {
    forall|i: int|
        0 <= i < s.len() ==> (#[trigger] s[i]).side == side && s[i].market == market
            && s[i].is_resting()
}

/// `s` is in price-time priority, best first: no order is outranked by one
/// that stands behind it.
pub open spec fn sorted(s: Seq<Order>) -> bool {
    forall|i: int, j: int|
        0 <= i < j < s.len() ==> !(#[trigger] s[j]).spec_outranks(#[trigger] s[i])
}

/// No two orders of `s` share an id.
pub open spec fn distinct_ids(s: Seq<Order>) -> bool {
    forall|i: int, j: int| 0 <= i < j < s.len() ==> (#[trigger] s[i]).id != (#[trigger] s[j]).id
}

/// What holds of one side of a book.
pub open spec fn side_wf(s: Seq<Order>, side: Side, market: u64) -> bool {
    &&& side_members(s, side, market)
    &&& sorted(s)
    &&& distinct_ids(s)
}

/// The numbers that have been given out: every resting order has an id and
/// a sequence number below the next ones, and an owner among the accounts.
pub struct Limits {
    pub next_id: u64,
    pub next_seq: u64,
    pub accounts: nat,
}

impl Limits {
    /// Whether `order` has an id and a sequence number that were given out,
    /// and an owner among the accounts.
    pub open spec fn admits(self, order: Order) -> bool {
        order.id < self.next_id && order.seq < self.next_seq && order.owner < self.accounts
    }

    /// Whether `other` admits all that these limits admit.
    pub open spec fn within(self, other: Limits) -> bool {
        self.next_id <= other.next_id && self.next_seq <= other.next_seq && self.accounts
            <= other.accounts
    }
}

/// Every order of `s` lies within `limits`.
pub open spec fn side_bounded(s: Seq<Order>, limits: Limits) -> bool {
    forall|i: int| 0 <= i < s.len() ==> limits.admits(#[trigger] s[i])
}

/// What `order` needs as escrow from `account`: its escrow if the account
/// owns it, else nothing.
pub open spec fn owed(order: Order, account: usize) -> int {
    if order.owner == account {
        order.escrow()
    } else {
        0
    }
}

/// The escrow that the orders of `s` need from `account`: the sum of the
/// escrows of those that it owns.
pub open spec fn escrow_of(s: Seq<Order>, account: usize) -> int
    decreases s.len(),
{
    if s.len() == 0 {
        0
    } else {
        escrow_of(s.drop_last(), account) + owed(s.last(), account)
    }
}

/// `k` is the place at which `o` enters `s`: behind every order that it
/// does not outrank, and so behind those of its own price that came
/// earlier, and in front of every order that it outranks.
pub open spec fn is_insert_rank(s: Seq<Order>, o: Order, k: int) -> bool {
    &&& 0 <= k <= s.len()
    &&& forall|i: int| 0 <= i < k ==> !o.spec_outranks(#[trigger] s[i])
    &&& forall|i: int| k <= i < s.len() ==> o.spec_outranks(#[trigger] s[i])
}

/// The place at which `o` enters `s`.
pub open spec fn insert_rank(s: Seq<Order>, o: Order) -> int {
    choose|k: int| is_insert_rank(s, o, k)
}

/// The order as the book keeps it: with the status that belongs to its
/// remaining quantity.
pub open spec fn stored(order: Order) -> Order {
    Order { status: resting_status(order.remaining, order.original), ..order }
}

/// One side after its `count` best orders were filled and `partial` of the
/// next one.
pub open spec fn consumed(s: Seq<Order>, count: int, partial: u64) -> Seq<Order> {
    if partial == 0 {
        s.skip(count)
    } else {
        s.skip(count).update(0, s[count].spec_reduced(partial))
    }
}

/// The content of an order book: the market it belongs to and its two
/// sides, each in priority order with the best order first.
pub struct BookState {
    pub market: u64,
    /// Highest price first; at one price the earlier order first.
    pub bids: Seq<Order>,
    /// Lowest price first; at one price the earlier order first.
    pub asks: Seq<Order>,
}

impl BookState {
    /// The orders of `side`, best first.
    pub open spec fn side(self, side: Side) -> Seq<Order> {
        match side {
            Side::Bid => self.bids,
            Side::Ask => self.asks,
        }
    }

    /// This book with the orders of `side` replaced by `s`.
    pub open spec fn with_side(self, side: Side, s: Seq<Order>) -> BookState {
        match side {
            Side::Bid => BookState { bids: s, ..self },
            Side::Ask => BookState { asks: s, ..self },
        }
    }

    /// Both sides are well formed and no id occurs on both.
    pub open spec fn wf(self) -> bool {
        &&& side_wf(self.bids, Side::Bid, self.market)
        &&& side_wf(self.asks, Side::Ask, self.market)
        &&& forall|i: int, j: int|
            0 <= i < self.bids.len() && 0 <= j < self.asks.len() ==> (#[trigger] self.bids[i]).id
                != (#[trigger] self.asks[j]).id
    }

    /// Every resting order lies within `limits`.
    pub open spec fn bounded(self, limits: Limits) -> bool {
        side_bounded(self.bids, limits) && side_bounded(self.asks, limits)
    }

    /// The best bid is below the best ask, or one side is empty.
    pub open spec fn uncrossed(self) -> bool {
        self.bids.len() > 0 && self.asks.len() > 0 ==> self.bids[0].price < self.asks[0].price
    }

    /// Whether an order with the id `id` rests in the book.
    pub open spec fn contains_id(self, id: u64) -> bool {
        has_id(self.bids, id) || has_id(self.asks, id)
    }

    /// The resting order with the id `id`, if there is one.
    pub open spec fn lookup(self, id: u64) -> Option<Order> {
        if has_id(self.bids, id) {
            Some(self.bids[rank_of(self.bids, id)])
        } else if has_id(self.asks, id) {
            Some(self.asks[rank_of(self.asks, id)])
        } else {
            None
        }
    }

    /// This book without the order of the id `id`.
    pub open spec fn without(self, id: u64) -> BookState {
        if has_id(self.bids, id) {
            BookState { bids: self.bids.remove(rank_of(self.bids, id)), ..self }
        } else if has_id(self.asks, id) {
            BookState { asks: self.asks.remove(rank_of(self.asks, id)), ..self }
        } else {
            self
        }
    }

    /// Why `order` cannot enter the book, if it cannot. The id is looked at
    /// first, so that an id that the book holds is always refused as a
    /// duplicate; then the market, the price and the quantities.
    pub open spec fn insert_check(self, order: Order) -> Result<(), DexError> {
        if self.contains_id(order.id) {
            Err(DexError::DuplicateOrderId)
        } else if order.market != self.market {
            Err(DexError::WrongMarket)
        } else if order.price == 0 {
            Err(DexError::InvalidPrice)
        } else if order.remaining == 0 || order.remaining > order.original {
            Err(DexError::InvalidQuantity)
        } else {
            Ok(())
        }
    }

    /// This book with `order` resting on its side, at the place that
    /// price-time priority gives it.
    pub open spec fn inserted(self, order: Order) -> BookState {
        let s = self.side(order.side);
        self.with_side(order.side, s.insert(insert_rank(s, stored(order)), stored(order)))
    }

    /// The candidate at `rank` for the incoming order `taker`: the resting
    /// order at that rank of the other side, as long as the taker's limit
    /// still crosses its price.
    pub open spec fn matchable(self, taker: Order, rank: int) -> Option<Order> {
        let makers = self.side(taker.side.spec_opposite());
        if 0 <= rank < makers.len() && taker.spec_crosses(makers[rank].price) {
            Some(makers[rank])
        } else {
            None
        }
    }
}

/// Orders that lie within limits lie within all wider ones.
pub proof fn lemma_bounded_grows(b: BookState, l: Limits, wider: Limits)
    requires
        b.bounded(l),
        l.within(wider),
    ensures
        b.bounded(wider),
{
    assert forall|i: int| 0 <= i < b.bids.len() implies wider.admits(#[trigger] b.bids[i]) by {
        assert(l.admits(b.bids[i]));
    }
    assert forall|i: int| 0 <= i < b.asks.len() implies wider.admits(#[trigger] b.asks[i]) by {
        assert(l.admits(b.asks[i]));
    }
}

/// No order needs a negative escrow.
pub proof fn lemma_owed_nonneg(order: Order, account: usize)
    ensures
        owed(order, account) >= 0,
{
    assert(order.price * order.remaining >= 0) by (nonlinear_arith);
}

/// No side needs a negative escrow.
pub proof fn lemma_escrow_nonneg(s: Seq<Order>, account: usize)
    ensures
        escrow_of(s, account) >= 0,
    decreases s.len(),
{
    if s.len() > 0 {
        lemma_escrow_nonneg(s.drop_last(), account);
        lemma_owed_nonneg(s.last(), account);
    }
}

/// An order that enters a side adds what it needs to the side's escrow.
pub proof fn lemma_escrow_insert(s: Seq<Order>, k: int, o: Order, account: usize)
    requires
        0 <= k <= s.len(),
    ensures
        escrow_of(s.insert(k, o), account) == escrow_of(s, account) + owed(o, account),
    decreases s.len(),
{
    let t = s.insert(k, o);
    if k == s.len() {
        assert(t.drop_last() =~= s);
        assert(t.last() == o);
    } else {
        assert(t.drop_last() =~= s.drop_last().insert(k, o));
        assert(t.last() == s.last());
        lemma_escrow_insert(s.drop_last(), k, o, account);
    }
}

/// An order that leaves a side takes what it needs from the side's escrow.
pub proof fn lemma_escrow_remove(s: Seq<Order>, k: int, account: usize)
    requires
        0 <= k < s.len(),
    ensures
        escrow_of(s.remove(k), account) == escrow_of(s, account) - owed(s[k], account),
    decreases s.len(),
{
    let t = s.remove(k);
    if k == s.len() - 1 {
        assert(t =~= s.drop_last());
    } else {
        assert(t.drop_last() =~= s.drop_last().remove(k));
        assert(t.last() == s.last());
        lemma_escrow_remove(s.drop_last(), k, account);
    }
}

/// An order that changes in its place changes the side's escrow by the
/// difference of what it needs.
pub proof fn lemma_escrow_update(s: Seq<Order>, k: int, o: Order, account: usize)
    requires
        0 <= k < s.len(),
    ensures
        escrow_of(s.update(k, o), account) == escrow_of(s, account) - owed(s[k], account) + owed(
            o,
            account,
        ),
    decreases s.len(),
{
    let t = s.update(k, o);
    if k == s.len() - 1 {
        assert(t.drop_last() =~= s.drop_last());
    } else {
        assert(t.drop_last() =~= s.drop_last().update(k, o));
        lemma_escrow_update(s.drop_last(), k, o, account);
    }
}

/// A side needs no escrow from an account that owns none of its orders.
pub proof fn lemma_escrow_unowned(s: Seq<Order>, account: usize)
    requires
        forall|i: int| 0 <= i < s.len() ==> (#[trigger] s[i]).owner != account,
    ensures
        escrow_of(s, account) == 0,
    decreases s.len(),
{
    if s.len() > 0 {
        let front = s.drop_last();
        assert forall|i: int| 0 <= i < front.len() implies (#[trigger] front[i]).owner
            != account by {
            assert(front[i] == s[i]);
        }
        lemma_escrow_unowned(front, account);
        assert(s.last() == s[s.len() - 1]);
    }
}

/// The escrow of the first orders of a side is no more than that of the
/// whole side.
pub proof fn lemma_escrow_prefix(s: Seq<Order>, n: int, account: usize)
    requires
        0 <= n <= s.len(),
    ensures
        escrow_of(s.take(n), account) <= escrow_of(s, account),
    decreases s.len(),
{
    if n == s.len() {
        assert(s.take(n) =~= s);
    } else {
        assert(s.take(n) =~= s.drop_last().take(n));
        lemma_escrow_prefix(s.drop_last(), n, account);
        lemma_owed_nonneg(s.last(), account);
    }
}

/// A side of one kind in which no order outranks the one just before it is
/// in priority order throughout.
pub proof fn lemma_adjacent_sorted(s: Seq<Order>, side: Side, i: int, j: int)
    requires
        forall|k: int| 0 <= k < s.len() ==> (#[trigger] s[k]).side == side,
        forall|k: int| 0 < k < s.len() ==> !(#[trigger] s[k]).spec_outranks(s[k - 1]),
        0 <= i < j < s.len(),
    ensures
        !s[j].spec_outranks(s[i]),
    decreases j - i,
{
    if i + 1 < j {
        lemma_adjacent_sorted(s, side, i, j - 1);
        assert(!s[j].spec_outranks(s[j - 1]));
        assert(s[j].side == side && s[j - 1].side == side && s[i].side == side);
    } else {
        assert(!s[j].spec_outranks(s[j - 1]));
    }
}

/// In a side without duplicate ids, the order with a given id stands at one
/// place only.
pub proof fn lemma_rank_of(s: Seq<Order>, id: u64, i: int)
    requires
        distinct_ids(s),
        0 <= i < s.len(),
        s[i].id == id,
    ensures
        has_id(s, id),
        rank_of(s, id) == i,
{
    let k = rank_of(s, id);
    assert(0 <= k < s.len() && s[k].id == id);
    if k < i {
        assert(s[k].id != s[i].id);
    } else if i < k {
        assert(s[i].id != s[k].id);
    }
}

/// The place at which an order enters a side is unique.
pub proof fn lemma_insert_rank(s: Seq<Order>, o: Order, k: int)
    requires
        is_insert_rank(s, o, k),
    ensures
        insert_rank(s, o) == k,
{
    let c = insert_rank(s, o);
    assert(is_insert_rank(s, o, c));
    if c < k {
        assert(o.spec_outranks(s[c]));
        assert(!o.spec_outranks(s[c]));
    } else if k < c {
        assert(o.spec_outranks(s[k]));
        assert(!o.spec_outranks(s[k]));
    }
}

/// On a sorted side there is a place for every order of that side.
pub proof fn lemma_insert_rank_exists(s: Seq<Order>, o: Order) -> (k: int)
    requires
        sorted(s),
        forall|i: int| 0 <= i < s.len() ==> (#[trigger] s[i]).side == o.side,
    ensures
        is_insert_rank(s, o, k),
        insert_rank(s, o) == k,
    decreases s.len(),
{
    let k = if s.len() == 0 {
        0
    } else if o.spec_outranks(s.last()) {
        let front = s.drop_last();
        assert forall|i: int, j: int| 0 <= i < j < front.len() implies !(
        #[trigger] front[j]).spec_outranks(#[trigger] front[i]) by {
            assert(!s[j].spec_outranks(s[i]));
        }
        let k = lemma_insert_rank_exists(front, o);
        assert forall|i: int| 0 <= i < k implies !o.spec_outranks(#[trigger] s[i]) by {
            assert(!o.spec_outranks(front[i]));
        }
        assert forall|i: int| k <= i < s.len() implies o.spec_outranks(#[trigger] s[i]) by {
            if i < s.len() - 1 {
                assert(o.spec_outranks(front[i]));
            }
        }
        k
    } else {
        assert forall|i: int| 0 <= i < s.len() implies !o.spec_outranks(#[trigger] s[i]) by {
            if i < s.len() - 1 {
                assert(!s[s.len() - 1].spec_outranks(s[i]));
            }
        }
        s.len() as int
    };
    lemma_insert_rank(s, o, k);
    k
}

/// An order that passes the check enters a well-formed book and leaves it
/// well formed; the book then holds its id beside those it held. If the
/// book was not crossed and the order does not cross the best order of the
/// other side, the book is not crossed afterwards.
pub proof fn lemma_inserted(b: BookState, o: Order)
    requires
        b.wf(),
        b.insert_check(o) is Ok,
    ensures
        b.inserted(o).wf(),
        b.inserted(o).market == b.market,
        b.inserted(o).side(o.side.spec_opposite()) == b.side(o.side.spec_opposite()),
        b.inserted(o).side(o.side).len() == b.side(o.side).len() + 1,
        forall|id: u64| b.inserted(o).contains_id(id) <==> (id == o.id || b.contains_id(id)),
        forall|id: u64|
            has_id(b.inserted(o).side(o.side), id) <==> (id == o.id || has_id(b.side(o.side), id)),
        b.inserted(o).lookup(o.id) == Some(stored(o)),
        forall|l: Limits|
            b.bounded(l) && l.admits(o) ==> #[trigger] b.inserted(o).bounded(l),
        forall|a: usize| #[trigger]
            escrow_of(b.inserted(o).side(o.side), a) == escrow_of(b.side(o.side), a) + owed(o, a),
        ({
            let other = b.side(o.side.spec_opposite());
            b.uncrossed() && (other.len() == 0 || !(Order {
                order_type: crate::order::OrderType::Limit,
                ..o
            }).spec_crosses(other[0].price))
        }) ==> b.inserted(o).uncrossed(),
{
    let s = b.side(o.side);
    let r = stored(o);
    let k = lemma_insert_rank_exists(s, r);
    lemma_insert(s, r, k, o.side, b.market);
    let after = b.inserted(o);
    assert forall|a: usize| #[trigger]
        escrow_of(after.side(o.side), a) == escrow_of(s, a) + owed(o, a) by {
        lemma_escrow_insert(s, k, r, a);
    }
    assert forall|i: int, j: int|
        0 <= i < after.bids.len() && 0 <= j < after.asks.len() implies (#[trigger] after.bids[i]).id
        != (#[trigger] after.asks[j]).id by {
        lemma_cross_ids(b, after, i, j, o.id);
    }
    assert(after.side(o.side)[k] == r);
    lemma_rank_of(after.side(o.side), o.id, k);
    if has_id(after.side(o.side.spec_opposite()), o.id) {
        assert(b.contains_id(o.id));
    }
}

/// Inserting an order at its place keeps a side well formed and adds its id
/// to the ids of the side, and no other.
pub proof fn lemma_insert(s: Seq<Order>, o: Order, k: int, side: Side, market: u64)
    requires
        side_wf(s, side, market),
        o.side == side,
        o.market == market,
        o.is_resting(),
        !has_id(s, o.id),
        is_insert_rank(s, o, k),
    ensures
        side_wf(s.insert(k, o), side, market),
        forall|id: u64| has_id(s.insert(k, o), id) <==> (id == o.id || has_id(s, id)),
        s.insert(k, o).len() == s.len() + 1,
        forall|i: int|
            0 <= i <= s.len() ==> (#[trigger] s.insert(k, o)[i]) == (if i < k {
                s[i]
            } else if i == k {
                o
            } else {
                s[i - 1]
            }),
        forall|l: Limits|
            side_bounded(s, l) && l.admits(o) ==> #[trigger] side_bounded(s.insert(k, o), l),
{
    let t = s.insert(k, o);
    assert(t.len() == s.len() + 1);
    assert forall|l: Limits|
        side_bounded(s, l) && l.admits(o) implies #[trigger] side_bounded(t, l) by {
        assert forall|i: int| 0 <= i < t.len() implies l.admits(#[trigger] t[i]) by {
            if i < k {
                assert(l.admits(s[i]));
            } else if i > k {
                assert(l.admits(s[i - 1]));
            }
        }
    }
    assert forall|i: int| 0 <= i < t.len() implies (#[trigger] t[i]) == (if i < k {
        s[i]
    } else if i == k {
        o
    } else {
        s[i - 1]
    }) by {}
    assert forall|i: int, j: int| 0 <= i < j < t.len() implies !(#[trigger] t[j]).spec_outranks(
        #[trigger] t[i],
    ) by {
        if j < k {
            assert(!s[j].spec_outranks(s[i]));
        } else if j == k {
            assert(!o.spec_outranks(s[i]));
        } else if i == k {
            assert(o.spec_outranks(s[j - 1]));
        } else if i < k {
            assert(!s[j - 1].spec_outranks(s[i]));
        } else {
            assert(!s[j - 1].spec_outranks(s[i - 1]));
        }
    }
    assert forall|i: int, j: int| 0 <= i < j < t.len() implies (#[trigger] t[i]).id != (
    #[trigger] t[j]).id by {
        let a = if i < k {
            i
        } else {
            i - 1
        };
        let b = if j < k {
            j
        } else {
            j - 1
        };
        if i != k && j != k {
            assert(s[a].id != s[b].id);
        } else if i == k {
            assert(s[b].id != o.id);
        } else {
            assert(s[a].id != o.id);
        }
    }
    assert forall|id: u64| has_id(t, id) <==> (id == o.id || has_id(s, id)) by {
        if has_id(t, id) {
            let i = choose|i: int| 0 <= i < t.len() && (#[trigger] t[i]).id == id;
            if i < k {
                assert(s[i].id == id);
            } else if i > k {
                assert(s[i - 1].id == id);
            }
        }
        if id == o.id {
            assert(t[k].id == id);
        }
        if has_id(s, id) {
            let i = choose|i: int| 0 <= i < s.len() && (#[trigger] s[i]).id == id;
            if i < k {
                assert(t[i].id == id);
            } else {
                assert(t[i + 1].id == id);
            }
        }
    }
}

/// Removing an order keeps a side well formed, takes its id from the ids of
/// the side, and no other, and puts no better order at the front.
pub proof fn lemma_remove(s: Seq<Order>, k: int, side: Side, market: u64)
    requires
        side_wf(s, side, market),
        0 <= k < s.len(),
    ensures
        side_wf(s.remove(k), side, market),
        forall|id: u64| has_id(s.remove(k), id) <==> (id != s[k].id && has_id(s, id)),
        s.remove(k).len() == s.len() - 1,
        forall|i: int|
            0 <= i < s.len() - 1 ==> (#[trigger] s.remove(k)[i]) == (if i < k {
                s[i]
            } else {
                s[i + 1]
            }),
        forall|l: Limits| side_bounded(s, l) ==> #[trigger] side_bounded(s.remove(k), l),
{
    let t = s.remove(k);
    assert(t.len() == s.len() - 1);
    assert forall|l: Limits| side_bounded(s, l) implies #[trigger] side_bounded(t, l) by {
        assert forall|i: int| 0 <= i < t.len() implies l.admits(#[trigger] t[i]) by {
            if i < k {
                assert(l.admits(s[i]));
            } else {
                assert(l.admits(s[i + 1]));
            }
        }
    }
    assert forall|i: int| 0 <= i < t.len() implies (#[trigger] t[i]) == (if i < k {
        s[i]
    } else {
        s[i + 1]
    }) by {}
    assert forall|i: int, j: int| 0 <= i < j < t.len() implies !(#[trigger] t[j]).spec_outranks(
        #[trigger] t[i],
    ) by {
        let a = if i < k {
            i
        } else {
            i + 1
        };
        let b = if j < k {
            j
        } else {
            j + 1
        };
        assert(!s[b].spec_outranks(s[a]));
    }
    assert forall|i: int, j: int| 0 <= i < j < t.len() implies (#[trigger] t[i]).id != (
    #[trigger] t[j]).id by {
        let a = if i < k {
            i
        } else {
            i + 1
        };
        let b = if j < k {
            j
        } else {
            j + 1
        };
        assert(s[a].id != s[b].id);
    }
    assert forall|id: u64| has_id(t, id) <==> (id != s[k].id && has_id(s, id)) by {
        if has_id(t, id) {
            let i = choose|i: int| 0 <= i < t.len() && (#[trigger] t[i]).id == id;
            let a = if i < k {
                i
            } else {
                i + 1
            };
            assert(s[a].id == id);
            if a < k {
                assert(s[a].id != s[k].id);
            } else {
                assert(s[k].id != s[a].id);
            }
        }
        if id != s[k].id && has_id(s, id) {
            let i = choose|i: int| 0 <= i < s.len() && (#[trigger] s[i]).id == id;
            if i < k {
                assert(t[i].id == id);
            } else {
                assert(t[i - 1].id == id);
            }
        }
    }
}

/// Filling orders from the front keeps a side well formed, brings no new id
/// and puts no better order at the front.
pub proof fn lemma_consumed(s: Seq<Order>, count: int, partial: u64, side: Side, market: u64)
    requires
        side_wf(s, side, market),
        0 <= count <= s.len(),
        partial > 0 ==> count < s.len() && partial < s[count].remaining,
    ensures
        side_wf(consumed(s, count, partial), side, market),
        consumed(s, count, partial).len() == s.len() - count,
        forall|id: u64| has_id(consumed(s, count, partial), id) ==> has_id(s, id),
        forall|i: int|
            0 <= i < s.len() - count ==> (#[trigger] consumed(s, count, partial)[i]) == (if i == 0
                && partial > 0 {
                s[count].spec_reduced(partial)
            } else {
                s[i + count]
            }),
        forall|l: Limits|
            side_bounded(s, l) ==> #[trigger] side_bounded(consumed(s, count, partial), l),
{
    let t = consumed(s, count, partial);
    assert forall|l: Limits| side_bounded(s, l) implies #[trigger] side_bounded(t, l) by {
        assert forall|i: int| 0 <= i < t.len() implies l.admits(#[trigger] t[i]) by {
            assert(l.admits(s[i + count]));
        }
    }
    assert forall|i: int| 0 <= i < t.len() implies (#[trigger] t[i]) == (if i == 0 && partial > 0 {
        s[count].spec_reduced(partial)
    } else {
        s[i + count]
    }) by {}
    assert forall|i: int| 0 <= i < t.len() implies (#[trigger] t[i]).side == side && t[i].market
        == market && t[i].is_resting() by {
        assert(s[i + count].is_resting());
    }
    assert forall|i: int, j: int| 0 <= i < j < t.len() implies !(#[trigger] t[j]).spec_outranks(
        #[trigger] t[i],
    ) by {
        assert(!s[j + count].spec_outranks(s[i + count]));
    }
    assert forall|i: int, j: int| 0 <= i < j < t.len() implies (#[trigger] t[i]).id != (
    #[trigger] t[j]).id by {
        assert(s[i + count].id != s[j + count].id);
    }
    assert forall|id: u64| has_id(t, id) implies has_id(s, id) by {
        let i = choose|i: int| 0 <= i < t.len() && (#[trigger] t[i]).id == id;
        assert(s[i + count].id == id);
    }
}

/// Taking an order out of a well-formed book leaves it well formed, and
/// not crossed if it was not; the id is gone, and no other.
pub proof fn lemma_without(b: BookState, id: u64)
    requires
        b.wf(),
    ensures
        b.without(id).wf(),
        b.without(id).market == b.market,
        b.uncrossed() ==> b.without(id).uncrossed(),
        forall|x: u64| b.without(id).contains_id(x) <==> (x != id && b.contains_id(x)),
        b.without(id).lookup(id) is None,
        b.lookup(id) is Some <==> b.contains_id(id),
        b.lookup(id) matches Some(o) ==> o.id == id && o.is_resting() && o.market == b.market && (
        forall|l: Limits| b.bounded(l) ==> l.admits(o)),
        b.lookup(id) is None ==> b.without(id) == b,
        forall|l: Limits| b.bounded(l) ==> #[trigger] b.without(id).bounded(l),
        b.lookup(id) matches Some(o) ==> b.without(id).side(o.side.spec_opposite()) == b.side(
            o.side.spec_opposite(),
        ) && forall|a: usize| #[trigger]
            escrow_of(b.without(id).side(o.side), a) == escrow_of(b.side(o.side), a) - owed(o, a),
{
    let after = b.without(id);
    if has_id(b.bids, id) {
        let k = rank_of(b.bids, id);
        lemma_remove(b.bids, k, Side::Bid, b.market);
        lemma_no_cross_id(b, id, k, Side::Bid);
        assert forall|a: usize| #[trigger]
            escrow_of(after.bids, a) == escrow_of(b.bids, a) - owed(b.bids[k], a) by {
            lemma_escrow_remove(b.bids, k, a);
        }
        if after.bids.len() > 0 && k == 0 {
            assert(!b.bids[1].spec_outranks(b.bids[0]));
        }
    } else if has_id(b.asks, id) {
        let k = rank_of(b.asks, id);
        lemma_remove(b.asks, k, Side::Ask, b.market);
        assert forall|a: usize| #[trigger]
            escrow_of(after.asks, a) == escrow_of(b.asks, a) - owed(b.asks[k], a) by {
            lemma_escrow_remove(b.asks, k, a);
        }
        if after.asks.len() > 0 && k == 0 {
            assert(!b.asks[1].spec_outranks(b.asks[0]));
        }
    }
    assert forall|i: int, j: int|
        0 <= i < after.bids.len() && 0 <= j < after.asks.len() implies (#[trigger] after.bids[i]).id
        != (#[trigger] after.asks[j]).id by {
        lemma_cross_ids_subset(b, after, i, j);
    }
}

/// Filling orders from the front of one side of a well-formed book leaves
/// it well formed, and not crossed if it was not; no id is new.
pub proof fn lemma_filled_front(b: BookState, side: Side, count: int, partial: u64)
    requires
        b.wf(),
        0 <= count <= b.side(side).len(),
        partial > 0 ==> count < b.side(side).len() && partial < b.side(side)[count].remaining,
    ensures
        b.with_side(side, consumed(b.side(side), count, partial)).wf(),
        b.uncrossed() ==> b.with_side(side, consumed(b.side(side), count, partial)).uncrossed(),
        forall|x: u64|
            b.with_side(side, consumed(b.side(side), count, partial)).contains_id(x)
                ==> b.contains_id(x),
        forall|l: Limits|
            b.bounded(l) ==> #[trigger] b.with_side(
                side,
                consumed(b.side(side), count, partial),
            ).bounded(l),
{
    let s = b.side(side);
    let t = consumed(s, count, partial);
    let after = b.with_side(side, t);
    lemma_consumed(s, count, partial, side, b.market);
    if t.len() > 0 {
        assert(t[0].price == s[0 + count].price);
        if count > 0 {
            assert(!s[count].spec_outranks(s[0]));
        }
    }
    assert forall|i: int, j: int|
        0 <= i < after.bids.len() && 0 <= j < after.asks.len() implies (#[trigger] after.bids[i]).id
        != (#[trigger] after.asks[j]).id by {
        lemma_cross_ids_subset(b, after, i, j);
    }
}

/// The order book of one market: the resting bids and the resting asks.
pub struct OrderBook {
    market: u64,
    bids: Vec<Order>,
    asks: Vec<Order>,
}

impl View for OrderBook {
    type V = BookState;

    closed spec fn view(&self) -> BookState {
        BookState { market: self.market, bids: self.bids@, asks: self.asks@ }
    }
}

/// A position in the walk over the resting orders that an incoming order
/// may trade against. The walk is lazy: each step reads one order. It can be
/// started again at any time.
pub struct MatchCursor {
    taker: Order,
    rank: usize,
}

fn position(v: &Vec<Order>, id: u64) -> (r: Option<usize>)
    ensures
        match r {
            Some(i) => i < v@.len() && v@[i as int].id == id,
            None => !has_id(v@, id),
        },
{
    let mut i: usize = 0;
    while i < v.len()
        invariant
            i <= v.len(),
            forall|j: int| 0 <= j < i ==> (#[trigger] v@[j]).id != id,
        decreases v.len() - i,
    {
        if v[i].id == id {
            return Some(i);
        }
        i = i + 1;
    }
    None
}

fn id_among(v: &Vec<Order>, upto: usize, id: u64) -> (found: bool)
    requires
        upto <= v@.len(),
    ensures
        found == (exists|j: int| 0 <= j < upto && (#[trigger] v@[j]).id == id),
{
    let mut j: usize = 0;
    while j < upto
        invariant
            j <= upto <= v@.len(),
            forall|k: int| 0 <= k < j ==> (#[trigger] v@[k]).id != id,
        decreases upto - j,
    {
        if v[j].id == id {
            return true;
        }
        j = j + 1;
    }
    false
}

fn side_in_order(v: &Vec<Order>, side: Side, market: u64) -> (ok: bool)
    ensures
        ok == (side_members(v@, side, market) && sorted(v@)),
{
    let mut i: usize = 0;
    while i < v.len()
        invariant
            i <= v.len(),
            forall|k: int|
                0 <= k < i ==> (#[trigger] v@[k]).side == side && v@[k].market == market
                    && v@[k].is_resting(),
            forall|k: int| 0 < k < i ==> !(#[trigger] v@[k]).spec_outranks(v@[k - 1]),
        decreases v.len() - i,
    {
        let o = v[i];
        let status_fits = match o.status {
            OrderStatus::Open => o.remaining == o.original,
            OrderStatus::PartiallyFilled => o.remaining != o.original,
            _ => false,
        };
        let of_side = match (o.side, side) {
            (Side::Bid, Side::Bid) => true,
            (Side::Ask, Side::Ask) => true,
            _ => false,
        };
        if !of_side || o.market != market || o.price == 0 || o.remaining == 0 || o.remaining
            > o.original || !status_fits {
            assert(!(v@[i as int].side == side && v@[i as int].market == market
                && v@[i as int].is_resting()));
            return false;
        }
        if i > 0 && o.outranks(v[i - 1]) {
            assert(v@[i as int].spec_outranks(v@[i - 1]));
            return false;
        }
        i = i + 1;
    }
    proof {
        assert forall|a: int, b: int| 0 <= a < b < v@.len() implies !(
        #[trigger] v@[b]).spec_outranks(#[trigger] v@[a]) by {
            lemma_adjacent_sorted(v@, side, a, b);
        }
    }
    true
}

fn ids_apart(bids: &Vec<Order>, asks: &Vec<Order>) -> (ok: bool)
    ensures
        ok == (distinct_ids(bids@) && distinct_ids(asks@) && forall|i: int, j: int|
            0 <= i < bids@.len() && 0 <= j < asks@.len() ==> (#[trigger] bids@[i]).id != (
            #[trigger] asks@[j]).id),
{
    let mut i: usize = 0;
    while i < bids.len()
        invariant
            i <= bids.len(),
            forall|a: int, b: int|
                0 <= a < b < i ==> (#[trigger] bids@[a]).id != (#[trigger] bids@[b]).id,
        decreases bids.len() - i,
    {
        if id_among(bids, i, bids[i].id) {
            let ghost a = choose|a: int|
                0 <= a < i && (#[trigger] bids@[a]).id == bids@[i as int].id;
            assert(bids@[a].id == bids@[i as int].id);
            return false;
        }
        i = i + 1;
    }
    let mut j: usize = 0;
    while j < asks.len()
        invariant
            j <= asks.len(),
            distinct_ids(bids@),
            forall|a: int, b: int|
                0 <= a < b < j ==> (#[trigger] asks@[a]).id != (#[trigger] asks@[b]).id,
            forall|a: int, b: int|
                0 <= a < bids@.len() && 0 <= b < j ==> (#[trigger] bids@[a]).id != (
                #[trigger] asks@[b]).id,
        decreases asks.len() - j,
    {
        if id_among(asks, j, asks[j].id) {
            let ghost a = choose|a: int|
                0 <= a < j && (#[trigger] asks@[a]).id == asks@[j as int].id;
            assert(asks@[a].id == asks@[j as int].id);
            return false;
        }
        if id_among(bids, bids.len(), asks[j].id) {
            let ghost a = choose|a: int|
                0 <= a < bids@.len() && (#[trigger] bids@[a]).id == asks@[j as int].id;
            assert(bids@[a].id == asks@[j as int].id);
            return false;
        }
        j = j + 1;
    }
    true
}

fn search_rank(v: &Vec<Order>, o: Order) -> (k: usize)
    requires
        sorted(v@),
        forall|i: int| 0 <= i < v@.len() ==> (#[trigger] v@[i]).side == o.side,
    ensures
        is_insert_rank(v@, o, k as int),
{
    let mut lo: usize = 0;
    let mut hi: usize = v.len();
    while lo < hi
        invariant
            lo <= hi <= v.len(),
            sorted(v@),
            forall|i: int| 0 <= i < v@.len() ==> (#[trigger] v@[i]).side == o.side,
            forall|i: int| 0 <= i < lo ==> !o.spec_outranks(#[trigger] v@[i]),
            forall|i: int| hi <= i < v@.len() ==> o.spec_outranks(#[trigger] v@[i]),
        decreases hi - lo,
    {
        let mid: usize = lo + (hi - lo) / 2;
        if o.outranks(v[mid]) {
            assert forall|i: int| mid <= i < v@.len() implies o.spec_outranks(#[trigger] v@[i]) by {
                if i > mid {
                    assert(!v@[i].spec_outranks(v@[mid as int]));
                }
            }
            hi = mid;
        } else {
            assert forall|i: int| 0 <= i < mid + 1 implies !o.spec_outranks(#[trigger] v@[i]) by {
                if i < mid {
                    assert(!v@[mid as int].spec_outranks(v@[i]));
                }
            }
            lo = mid + 1;
        }
    }
    lo
}

fn escrow_sum(v: &Vec<Order>, account: usize) -> (r: Option<u64>)
    ensures
        r == if escrow_of(v@, account) <= u64::MAX {
            Some(escrow_of(v@, account) as u64)
        } else {
            None
        },
{
    let mut sum: u64 = 0;
    let mut i: usize = 0;
    while i < v.len()
        invariant
            i <= v.len(),
            sum == escrow_of(v@.take(i as int), account),
        decreases v.len() - i,
    {
        let o = v[i];
        proof {
            assert(v@.take(i + 1).drop_last() =~= v@.take(i as int));
            assert(v@.take(i + 1).last() == o);
            lemma_escrow_prefix(v@, i + 1, account);
            lemma_owed_nonneg(o, account);
        }
        if o.owner == account {
            let next = match o.escrow_amount() {
                None => None,
                Some(e) => sum.checked_add(e),
            };
            match next {
                None => {
                    return None;
                },
                Some(n) => {
                    sum = n;
                },
            }
        }
        i = i + 1;
    }
    assert(v@.take(i as int) =~= v@);
    Some(sum)
}

fn copy_orders(v: &Vec<Order>) -> (r: Vec<Order>)
    ensures
        r@ == v@,
{
    let mut r: Vec<Order> = Vec::new();
    let mut i: usize = 0;
    while i < v.len()
        invariant
            i <= v.len(),
            r@ == v@.take(i as int),
        decreases v.len() - i,
    {
        r.push(v[i]);
        i = i + 1;
    }
    assert(v@.take(i as int) =~= v@);
    r
}

fn drop_front(v: &mut Vec<Order>, count: usize, partial: u64)
    requires
        count <= old(v)@.len(),
        partial > 0 ==> count < old(v)@.len() && partial < old(v)@[count as int].remaining,
    ensures
        final(v)@ == consumed(old(v)@, count as int, partial),
{
    let mut rest = v.split_off(count);
    if partial > 0 {
        let front = rest[0];
        rest.set(0, front.reduced(partial));
    }
    *v = rest;
}

impl OrderBook {
    /// The book is well formed.
    pub open spec fn wf(&self) -> bool {
        self@.wf()
    }

    /// An empty book for `market`.
    pub fn new(market: u64) -> (book: OrderBook)
        ensures
            book.wf(),
            book@ == (BookState { market, bids: Seq::empty(), asks: Seq::empty() }),
    {
        OrderBook { market, bids: Vec::new(), asks: Vec::new() }
    }

    /// The book of `market` with the given sides, as they were stored: each
    /// best first. None if they are not the sides of a well-formed book:
    /// if an order is of the other side or of another market, has no
    /// price, no remaining quantity or more than its original one, or a
    /// status that does not fit the quantity, if a side is not in priority
    /// order, or if an id occurs twice.
    pub fn from_sides(market: u64, bids: Vec<Order>, asks: Vec<Order>) -> (r: Option<OrderBook>)
        ensures
            match r {
                Some(book) => book.wf() && book@ == (BookState {
                    market,
                    bids: bids@,
                    asks: asks@,
                }),
                None => !(BookState { market, bids: bids@, asks: asks@ }).wf(),
            },
    {
        if side_in_order(&bids, Side::Bid, market) && side_in_order(&asks, Side::Ask, market)
            && ids_apart(&bids, &asks) {
            Some(OrderBook { market, bids, asks })
        } else {
            None
        }
    }

    /// The escrow that the resting orders of `side` need from `account`, or
    /// none where it leaves the range of `u64`.
    pub fn escrow(&self, side: Side, account: usize) -> (r: Option<u64>)
        ensures
            r == if escrow_of(self@.side(side), account) <= u64::MAX {
                Some(escrow_of(self@.side(side), account) as u64)
            } else {
                None
            },
    {
        match side {
            Side::Bid => escrow_sum(&self.bids, account),
            Side::Ask => escrow_sum(&self.asks, account),
        }
    }

    /// The market the book belongs to.
    pub fn market_id(&self) -> (m: u64)
        ensures
            m == self@.market,
    {
        self.market
    }

    /// The number of orders that rest on `side`.
    pub fn depth(&self, side: Side) -> (n: usize)
        ensures
            n == self@.side(side).len(),
    {
        match side {
            Side::Bid => self.bids.len(),
            Side::Ask => self.asks.len(),
        }
    }

    /// Whether no order rests in the book.
    pub fn is_empty(&self) -> (e: bool)
        ensures
            e <==> self@.bids.len() == 0 && self@.asks.len() == 0,
    {
        self.bids.len() == 0 && self.asks.len() == 0
    }

    /// The order at `rank` on `side`, counted from the best, which has rank
    /// zero.
    pub fn peek(&self, side: Side, rank: usize) -> (r: Option<Order>)
        ensures
            r == if rank < self@.side(side).len() {
                Some(self@.side(side)[rank as int])
            } else {
                None
            },
    {
        match side {
            Side::Bid => if rank < self.bids.len() {
                Some(self.bids[rank])
            } else {
                None
            },
            Side::Ask => if rank < self.asks.len() {
                Some(self.asks[rank])
            } else {
                None
            },
        }
    }

    /// The bid with the highest price, the earliest of them; none if no bid
    /// rests.
    pub fn best_bid(&self) -> (r: Option<Order>)
        ensures
            r == if self@.bids.len() > 0 {
                Some(self@.bids[0])
            } else {
                None
            },
    {
        self.peek(Side::Bid, 0)
    }

    /// The ask with the lowest price, the earliest of them; none if no ask
    /// rests.
    pub fn best_ask(&self) -> (r: Option<Order>)
        ensures
            r == if self@.asks.len() > 0 {
                Some(self@.asks[0])
            } else {
                None
            },
    {
        self.peek(Side::Ask, 0)
    }

    /// The resting order with the id `id`, if there is one.
    pub fn get(&self, id: u64) -> (r: Option<Order>)
        requires
            self.wf(),
        ensures
            r == self@.lookup(id),
    {
        match position(&self.bids, id) {
            Some(i) => {
                proof {
                    lemma_rank_of(self.bids@, id, i as int);
                }
                Some(self.bids[i])
            },
            None => match position(&self.asks, id) {
                Some(i) => {
                    proof {
                        lemma_rank_of(self.asks@, id, i as int);
                    }
                    Some(self.asks[i])
                },
                None => None,
            },
        }
    }

    /// The orders of `side`, best first.
    pub fn orders(&self, side: Side) -> (r: Vec<Order>)
        ensures
            r@ == self@.side(side),
    {
        match side {
            Side::Bid => copy_orders(&self.bids),
            Side::Ask => copy_orders(&self.asks),
        }
    }

    /// A copy of the book.
    pub fn snapshot(&self) -> (book: OrderBook)
        ensures
            book@ == self@,
    {
        OrderBook {
            market: self.market,
            bids: copy_orders(&self.bids),
            asks: copy_orders(&self.asks),
        }
    }

    /// Lets `order` rest in the book, at the place that price-time priority
    /// gives it on its side, with the status that belongs to its remaining
    /// quantity. Fails, and changes nothing, if the book already holds an
    /// order with its id (`DuplicateOrderId`), or if the order is of
    /// another market, has no price, or has no remaining quantity or more
    /// than its original one. The other side is not looked at: that the
    /// book stays uncrossed is the matching engine's concern.
    pub fn insert(&mut self, order: Order) -> (r: Result<(), DexError>)
        requires
            old(self).wf(),
        ensures
            final(self).wf(),
            r == old(self)@.insert_check(order),
            final(self)@ == if r is Ok {
                old(self)@.inserted(order)
            } else {
                old(self)@
            },
    {
        match position(&self.bids, order.id) {
            Some(_) => {
                return Err(DexError::DuplicateOrderId);
            },
            None => {},
        }
        match position(&self.asks, order.id) {
            Some(_) => {
                return Err(DexError::DuplicateOrderId);
            },
            None => {},
        }
        if order.market != self.market {
            return Err(DexError::WrongMarket);
        }
        if order.price == 0 {
            return Err(DexError::InvalidPrice);
        }
        if order.remaining == 0 || order.remaining > order.original {
            return Err(DexError::InvalidQuantity);
        }
        let resting = Order {
            status: if order.remaining == order.original {
                OrderStatus::Open
            } else {
                OrderStatus::PartiallyFilled
            },
            ..order
        };
        assert(resting == stored(order));
        match order.side {
            Side::Bid => {
                let k = search_rank(&self.bids, resting);
                proof {
                    lemma_insert_rank(self.bids@, resting, k as int);
                    lemma_insert(self.bids@, resting, k as int, Side::Bid, self.market);
                }
                self.bids.insert(k, resting);
            },
            Side::Ask => {
                let k = search_rank(&self.asks, resting);
                proof {
                    lemma_insert_rank(self.asks@, resting, k as int);
                    lemma_insert(self.asks@, resting, k as int, Side::Ask, self.market);
                }
                self.asks.insert(k, resting);
            },
        }
        proof {
            let t = final(self)@;
            assert forall|i: int, j: int|
                0 <= i < t.bids.len() && 0 <= j < t.asks.len() implies (
            #[trigger] t.bids[i]).id != (#[trigger] t.asks[j]).id by {
                lemma_cross_ids(old(self)@, t, i, j, order.id);
            }
        }
        Ok(())
    }

    /// Takes the order with the id `id` out of the book and returns its
    /// remaining quantity, the quantity whose escrow is thereby free. Fails
    /// with `OrderNotFound`, and changes nothing, if no such order rests in
    /// the book: it never did, was filled, or was cancelled before.
    pub fn cancel(&mut self, id: u64) -> (r: Result<u64, DexError>)
        requires
            old(self).wf(),
        ensures
            final(self).wf(),
            old(self)@.uncrossed() ==> final(self)@.uncrossed(),
            !final(self)@.contains_id(id),
            match old(self)@.lookup(id) {
                Some(o) => r == Ok::<u64, DexError>(o.remaining) && final(self)@ == old(
                    self,
                )@.without(id),
                None => r == Err::<u64, DexError>(DexError::OrderNotFound) && final(self)@ == old(
                    self,
                )@,
            },
    {
        match position(&self.bids, id) {
            Some(i) => {
                proof {
                    lemma_rank_of(self.bids@, id, i as int);
                    lemma_remove(self.bids@, i as int, Side::Bid, self.market);
                    lemma_no_cross_id(self@, id, i as int, Side::Bid);
                }
                let o = self.bids.remove(i);
                Ok(o.remaining)
            },
            None => match position(&self.asks, id) {
                Some(i) => {
                    proof {
                        lemma_rank_of(self.asks@, id, i as int);
                        lemma_remove(self.asks@, i as int, Side::Ask, self.market);
                        lemma_no_cross_id(self@, id, i as int, Side::Ask);
                    }
                    let o = self.asks.remove(i);
                    Ok(o.remaining)
                },
                None => Err(DexError::OrderNotFound),
            },
        }
    }

    /// Starts the walk over the resting orders that `incoming` may trade
    /// against: those of the other side, best first, for as long as the
    /// price still crosses.
    pub fn iterate_matchable(&self, incoming: Order) -> (cursor: MatchCursor)
        ensures
            cursor.taker() == incoming,
            cursor.rank() == 0,
    {
        MatchCursor { taker: incoming, rank: 0 }
    }

    /// Fills the `count` best orders of `side` in full and then `partial` of
    /// the order behind them.
    pub(crate) fn fill_front(&mut self, side: Side, count: usize, partial: u64)
        requires
            old(self).wf(),
            count <= old(self)@.side(side).len(),
            partial > 0 ==> count < old(self)@.side(side).len() && partial < old(self)@.side(
                side,
            )[count as int].remaining,
        ensures
            final(self).wf(),
            old(self)@.uncrossed() ==> final(self)@.uncrossed(),
            final(self)@ == old(self)@.with_side(
                side,
                consumed(old(self)@.side(side), count as int, partial),
            ),
    {
        proof {
            lemma_consumed(self@.side(side), count as int, partial, side, self.market);
        }
        match side {
            Side::Bid => {
                drop_front(&mut self.bids, count, partial);
            },
            Side::Ask => {
                drop_front(&mut self.asks, count, partial);
            },
        }
        proof {
            let s = old(self)@.side(side);
            let t = final(self)@.side(side);
            if t.len() > 0 {
                assert(t[0].price == s[0 + count].price);
                if count > 0 {
                    assert(!s[count as int].spec_outranks(s[0]));
                }
            }
            assert forall|i: int, j: int|
                0 <= i < final(self)@.bids.len() && 0 <= j < final(self)@.asks.len() implies (
            #[trigger] final(self)@.bids[i]).id != (#[trigger] final(self)@.asks[j]).id by {
                match side {
                    Side::Bid => {
                        assert(t[i].id == s[i + count].id);
                        assert(old(self)@.bids[i + count].id != old(self)@.asks[j].id);
                    },
                    Side::Ask => {
                        assert(t[j].id == s[j + count].id);
                        assert(old(self)@.bids[i].id != old(self)@.asks[j + count].id);
                    },
                }
            }
        }
    }
}

/// After an order entered one side, the two sides still share no id.
proof fn lemma_cross_ids(before: BookState, after: BookState, i: int, j: int, id: u64)
    requires
        before.wf(),
        !before.contains_id(id),
        0 <= i < after.bids.len(),
        0 <= j < after.asks.len(),
        forall|x: u64| has_id(after.bids, x) ==> x == id || has_id(before.bids, x),
        forall|x: u64| has_id(after.asks, x) ==> x == id || has_id(before.asks, x),
        after.bids == before.bids || after.asks == before.asks,
    ensures
        after.bids[i].id != after.asks[j].id,
{
    let a = after.bids[i].id;
    let b = after.asks[j].id;
    assert(has_id(after.bids, a));
    assert(has_id(after.asks, b));
    if a == b {
        if after.bids == before.bids {
            assert(has_id(before.bids, a));
            assert(a != id);
            assert(has_id(before.asks, a));
        } else {
            assert(has_id(before.asks, b));
            assert(b != id);
            assert(has_id(before.bids, b));
        }
        let x = choose|x: int| 0 <= x < before.bids.len() && (#[trigger] before.bids[x]).id == a;
        let y = choose|y: int| 0 <= y < before.asks.len() && (#[trigger] before.asks[y]).id == a;
        assert(before.bids[x].id != before.asks[y].id);
    }
}

/// Where no side gained an id, the two sides still share no id.
proof fn lemma_cross_ids_subset(before: BookState, after: BookState, i: int, j: int)
    requires
        before.wf(),
        0 <= i < after.bids.len(),
        0 <= j < after.asks.len(),
        forall|x: u64| has_id(after.bids, x) ==> has_id(before.bids, x),
        forall|x: u64| has_id(after.asks, x) ==> has_id(before.asks, x),
    ensures
        after.bids[i].id != after.asks[j].id,
{
    let a = after.bids[i].id;
    let b = after.asks[j].id;
    assert(has_id(after.bids, a));
    assert(has_id(after.asks, b));
    if a == b {
        let x = choose|x: int| 0 <= x < before.bids.len() && (#[trigger] before.bids[x]).id == a;
        let y = choose|y: int| 0 <= y < before.asks.len() && (#[trigger] before.asks[y]).id == a;
        assert(before.bids[x].id != before.asks[y].id);
    }
}

/// An id that stands on one side of a well-formed book stands nowhere on
/// the other.
proof fn lemma_no_cross_id(b: BookState, id: u64, i: int, side: Side)
    requires
        b.wf(),
        0 <= i < b.side(side).len(),
        b.side(side)[i].id == id,
    ensures
        !has_id(b.side(side.spec_opposite()), id),
{
    let other = b.side(side.spec_opposite());
    if has_id(other, id) {
        let j = choose|j: int| 0 <= j < other.len() && (#[trigger] other[j]).id == id;
        match side {
            Side::Bid => {
                assert(b.bids[i].id != b.asks[j].id);
            },
            Side::Ask => {
                assert(b.bids[j].id != b.asks[i].id);
            },
        }
    }
}

impl MatchCursor {
    /// The incoming order the walk is made for.
    pub closed spec fn taker(&self) -> Order {
        self.taker
    }

    /// The rank of the candidate that comes next.
    pub closed spec fn rank(&self) -> int {
        self.rank as int
    }

    /// The next candidate, or none once the other side is exhausted or its
    /// price no longer crosses; from then on every call returns none.
    pub fn next(&mut self, book: &OrderBook) -> (r: Option<Order>)
        ensures
            r == book@.matchable(old(self).taker(), old(self).rank()),
            final(self).taker() == old(self).taker(),
            final(self).rank() == if r is Some {
                old(self).rank() + 1
            } else {
                old(self).rank()
            },
    {
        let side = self.taker.side.opposite();
        let depth = book.depth(side);
        match book.peek(side, self.rank) {
            Some(maker) => {
                assert(self.rank < depth);
                if self.taker.crosses(maker.price) {
                    self.rank = self.rank + 1;
                    Some(maker)
                } else {
                    None
                }
            },
            None => None,
        }
    }

    /// Starts the walk again at the best order.
    pub fn restart(&mut self)
        ensures
            final(self).taker() == old(self).taker(),
            final(self).rank() == 0,
    {
        self.rank = 0;
    }
}

} // verus!
