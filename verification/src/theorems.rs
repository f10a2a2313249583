//! What holds of every state that instructions leave behind, and of every
//! sequence of instructions: the book is never crossed, reserved balances
//! are the escrow of the resting orders, nothing is created or destroyed,
//! cancelling is not repeated, and replay is deterministic.

use crate::book::{
    escrow_of, lemma_bounded_grows, lemma_escrow_nonneg, lemma_escrow_unowned, lemma_owed_nonneg,
    lemma_without, owed, BookState,
};
use crate::error::DexError;
use crate::exchange::{
    escrowed_at, spec_escrow_asset, taker_need, CancelOrder, ExchangeState, Instruction,
    PlaceOrder, Request,
};
use crate::ledger::{
    credit_spec, debit_spec, lemma_credit, lemma_debit, lemma_release, lemma_reserve,
    lemma_totals_push, release_spec, reserve_spec, total, AccountBalances, Asset,
};
use crate::matching::{
    lemma_match_escrow, lemma_match_outcome, lemma_matched, match_check, match_outcome, matched,
};
use crate::order::{Order, Side};
use crate::settlement::{
    covered, lemma_settle_conserves, lemma_settle_covered, lemma_settle_reserved,
    lemma_volume_nonneg, settle_spec,
};
use vstd::prelude::*;

verus! {

/// The next order id is not in the book.
pub proof fn lemma_fresh_id(s: ExchangeState)
    requires
        s.wf(),
    ensures
        !s.book.contains_id(s.next_order_id),
{
    if crate::book::has_id(s.book.bids, s.next_order_id) {
        let i = choose|i: int|
            0 <= i < s.book.bids.len() && (#[trigger] s.book.bids[i]).id == s.next_order_id;
        assert(s.limits().admits(s.book.bids[i]));
    }
    if crate::book::has_id(s.book.asks, s.next_order_id) {
        let i = choose|i: int|
            0 <= i < s.book.asks.len() && (#[trigger] s.book.asks[i]).id == s.next_order_id;
        assert(s.limits().admits(s.book.asks[i]));
    }
}

/// Time priority: an order that is placed now comes after every resting
/// order in time, so that it outranks none of its own side at its own
/// price, and each of those outranks it.
pub proof fn lemma_time_priority(s: ExchangeState, order: PlaceOrder, authorized: bool, i: int)
    requires
        s.wf(),
        s.validate(order, authorized) is Ok,
        0 <= i < s.book.side(order.side).len(),
    ensures
        s.book.side(order.side)[i].seq < s.incoming(order).seq,
        s.book.side(order.side)[i].price == s.incoming(order).price ==> s.book.side(
            order.side,
        )[i].spec_outranks(s.incoming(order)) && !s.incoming(order).spec_outranks(
            s.book.side(order.side)[i],
        ),
{
    let resting = s.book.side(order.side)[i];
    assert(s.limits().admits(resting));
    assert(resting.side == order.side);
}

/// A new account keeps the state well formed and holds nothing: the sum of
/// all holdings of each asset stays what it was.
pub proof fn lemma_open_account(s: ExchangeState)
    requires
        s.wf(),
    ensures
        s.open_account().wf(),
        total(s.open_account().accounts, Asset::Base) == total(s.accounts, Asset::Base),
        total(s.open_account().accounts, Asset::Quote) == total(s.accounts, Asset::Quote),
{
    let after = s.open_account();
    let n = s.accounts.len();
    lemma_totals_push(s.accounts, AccountBalances::empty(), Asset::Base);
    lemma_totals_push(s.accounts, AccountBalances::empty(), Asset::Quote);
    assert forall|a: usize| a < after.accounts.len() implies #[trigger] escrowed_at(
        after.book,
        after.accounts,
        a,
    ) by {
        if a < n {
            assert(escrowed_at(s.book, s.accounts, a));
            assert(after.accounts[a as int] == s.accounts[a as int]);
        } else {
            lemma_escrow_unowned(s.book.asks, a);
            lemma_escrow_unowned(s.book.bids, a);
        }
    }
    assert forall|i: int| 0 <= i < after.accounts.len() implies (
    #[trigger] after.accounts[i]).wf() by {
        if i < n {
            assert(s.accounts[i].wf());
        }
    }
}

/// A deposit keeps the state well formed; it adds its amount to the sum of
/// all holdings of its asset, and a failed one adds nothing.
pub proof fn lemma_deposit(s: ExchangeState, account: usize, asset: Asset, amount: u64)
    requires
        s.wf(),
    ensures
        s.deposit(account, asset, amount).0.wf(),
        total(s.deposit(account, asset, amount).0.accounts, asset) == total(s.accounts, asset)
            + if s.deposit(account, asset, amount).1 is Ok {
            amount as int
        } else {
            0
        },
{
    if credit_spec(s.accounts, account, asset, amount) is Ok {
        let after = s.deposit(account, asset, amount).0;
        lemma_credit(s.accounts, account, asset, amount, asset);
        assert forall|a: usize| a < after.accounts.len() implies #[trigger] escrowed_at(
            after.book,
            after.accounts,
            a,
        ) by {
            assert(escrowed_at(s.book, s.accounts, a));
        }
    }
}

/// A withdrawal keeps the state well formed; it takes its amount from the
/// sum of all holdings of its asset, and a failed one takes nothing.
pub proof fn lemma_withdraw(s: ExchangeState, account: usize, asset: Asset, amount: u64)
    requires
        s.wf(),
    ensures
        s.withdraw(account, asset, amount).0.wf(),
        total(s.withdraw(account, asset, amount).0.accounts, asset) == total(s.accounts, asset)
            - if s.withdraw(account, asset, amount).1 is Ok {
            amount as int
        } else {
            0
        },
{
    if debit_spec(s.accounts, account, asset, amount) is Ok {
        let after = s.withdraw(account, asset, amount).0;
        lemma_debit(s.accounts, account, asset, amount, asset);
        assert forall|a: usize| a < after.accounts.len() implies #[trigger] escrowed_at(
            after.book,
            after.accounts,
            a,
        ) by {
            assert(escrowed_at(s.book, s.accounts, a));
        }
    }
}

/// Placing an order keeps the state well formed: in particular the book is
/// not crossed afterwards and the reserved balances are again the escrow of
/// the resting orders. It creates and destroys nothing of either asset. A
/// rejected order leaves the state as it was.
pub proof fn lemma_place_order(s: ExchangeState, order: PlaceOrder, authorized: bool)
    requires
        s.wf(),
    ensures
        s.place_order(order, authorized).0.wf(),
        s.place_order(order, authorized).1 is Err ==> s.place_order(order, authorized).0 == s,
        s.place_order(order, authorized).0.accounts.len() == s.accounts.len(),
        total(s.place_order(order, authorized).0.accounts, Asset::Base) == total(
            s.accounts,
            Asset::Base,
        ),
        total(s.place_order(order, authorized).0.accounts, Asset::Quote) == total(
            s.accounts,
            Asset::Quote,
        ),
{
    if s.try_place(order, authorized) is Ok {
        let incoming = s.incoming(order);
        let m = matched(s.book, incoming);
        let need = taker_need(order.side, m.fills, m.remainder) as u64;
        let asset = spec_escrow_asset(order.side);
        let reserved = reserve_spec(s.accounts, order.owner, asset, need)->Ok_0;
        let settled = settle_spec(reserved, m.fills)->Ok_0;
        let after = s.place_order(order, authorized).0;
        let makers = s.book.side(order.side.spec_opposite());
        lemma_matched(s.book, incoming);
        lemma_volume_nonneg(m.fills);
        if let Some(o) = m.remainder {
            lemma_owed_nonneg(o, o.owner);
        }
        lemma_reserve(s.accounts, order.owner, asset, need, Asset::Base);
        lemma_reserve(s.accounts, order.owner, asset, need, Asset::Quote);
        lemma_settle_conserves(reserved, m.fills);
        lemma_bounded_grows(s.book, s.limits(), after.limits());
        assert(after.book == m.book);
        assert(after.accounts == settled);
        assert forall|a: usize| a < after.accounts.len() implies #[trigger] escrowed_at(
            after.book,
            after.accounts,
            a,
        ) by {
            lemma_settle_reserved(reserved, m.fills, a);
            lemma_match_escrow(makers, incoming, incoming.remaining, a);
            assert(escrowed_at(s.book, s.accounts, a));
            let resting = match m.remainder {
                Some(o) => owed(o, a),
                None => 0,
            };
            assert(escrow_of(m.book.side(order.side), a) == escrow_of(s.book.side(order.side), a)
                + resting);
            assert(m.book.side(order.side.spec_opposite()) == match_outcome(
                makers,
                incoming,
                incoming.remaining,
            ).makers);
            match order.side {
                Side::Bid => {
                    assert(reserved[a as int].base == s.accounts[a as int].base);
                    assert(reserved[a as int].quote.reserved == s.accounts[a as int].quote.reserved
                        + if a == order.owner {
                        need as int
                    } else {
                        0
                    });
                },
                Side::Ask => {
                    assert(reserved[a as int].quote == s.accounts[a as int].quote);
                    assert(reserved[a as int].base.reserved == s.accounts[a as int].base.reserved
                        + if a == order.owner {
                        need as int
                    } else {
                        0
                    });
                },
            }
        }
    }
}

/// The fills of an incoming order never lack escrow: once its owner has
/// reserved what the order needs, the reserved balances cover every fill.
/// So an order is rejected for want of funds exactly when its owner has
/// less available than the order needs: what its fills cost and what its
/// remainder needs as escrow.
pub proof fn lemma_place_order_funds(s: ExchangeState, order: PlaceOrder, authorized: bool)
    requires
        s.wf(),
        s.validate(order, authorized) is Ok,
    ensures
        ({
            let m = matched(s.book, s.incoming(order));
            let need = taker_need(order.side, m.fills, m.remainder);
            let held = s.accounts[order.owner as int].spec_get(spec_escrow_asset(order.side));
            let result = s.place_order(order, authorized).1;
            &&& 0 <= need
            &&& (result matches Err(e) && e == DexError::InsufficientFunds) <==> need <= u64::MAX
                && held.available < need
            &&& result matches Err(e) ==> e == DexError::InsufficientFunds || e
                == DexError::ArithmeticOverflow
        }),
{
    let incoming = s.incoming(order);
    let m = matched(s.book, incoming);
    let need = taker_need(order.side, m.fills, m.remainder);
    let asset = spec_escrow_asset(order.side);
    let other = order.side.spec_opposite();
    let makers = s.book.side(other);
    lemma_matched(s.book, incoming);
    lemma_volume_nonneg(m.fills);
    if let Some(o) = m.remainder {
        lemma_owed_nonneg(o, o.owner);
    }
    if need <= u64::MAX && reserve_spec(s.accounts, order.owner, asset, need as u64) is Ok {
        let reserved = reserve_spec(s.accounts, order.owner, asset, need as u64)->Ok_0;
        assert forall|i: int| 0 <= i < makers.len() implies (#[trigger] makers[i]).remaining
            > 0 by {
            assert(makers[i].is_resting());
        }
        let r = lemma_match_outcome(makers, incoming, incoming.remaining);
        assert forall|k: int| 0 <= k < m.fills.len() implies (#[trigger] m.fills[k]).spec_buyer()
            < reserved.len() && m.fills[k].spec_seller() < reserved.len() by {
            assert(makers[k].owner < s.accounts.len());
        }
        assert forall|a: usize| a < reserved.len() implies crate::settlement::sold(m.fills, a) <= (
        #[trigger] reserved[a as int]).base.reserved && crate::settlement::spent(m.fills, a)
            <= reserved[a as int].quote.reserved by {
            lemma_match_escrow(makers, incoming, incoming.remaining, a);
            lemma_escrow_nonneg(match_outcome(makers, incoming, incoming.remaining).makers, a);
            assert(escrowed_at(s.book, s.accounts, a));
        }
        assert(covered(reserved, m.fills));
        lemma_settle_covered(reserved, m.fills);
    }
}

/// Cancelling keeps the state well formed and creates and destroys nothing
/// of either asset; a rejected cancellation leaves the state as it was.
/// Success is owed: an order that rests in the book of an active market is
/// cancelled whenever its owner asks with authority for it.
pub proof fn lemma_cancel_order(s: ExchangeState, cancel: CancelOrder, authorized: bool)
    requires
        s.wf(),
    ensures
        s.cancel_order(cancel, authorized).0.wf(),
        s.cancel_order(cancel, authorized).1 is Err ==> s.cancel_order(cancel, authorized).0 == s,
        s.cancel_order(cancel, authorized).0.accounts.len() == s.accounts.len(),
        total(s.cancel_order(cancel, authorized).0.accounts, Asset::Base) == total(
            s.accounts,
            Asset::Base,
        ),
        total(s.cancel_order(cancel, authorized).0.accounts, Asset::Quote) == total(
            s.accounts,
            Asset::Quote,
        ),
        s.cancel_order(cancel, authorized).1 is Ok <==> s.entry_check(cancel.market_id, authorized)
            is Ok && (s.book.lookup(cancel.order_id) matches Some(o) && o.owner == cancel.owner),
{
    lemma_without(s.book, cancel.order_id);
    if s.entry_check(cancel.market_id, authorized) is Ok {
        if let Some(o) = s.book.lookup(cancel.order_id) {
            if o.owner == cancel.owner {
                let asset = spec_escrow_asset(o.side);
                let side = s.book.side(o.side);
                let gone = s.book.without(cancel.order_id);
                assert(o.owner < s.accounts.len());
                lemma_owed_nonneg(o, o.owner);
                lemma_escrow_nonneg(gone.side(o.side), o.owner);
                assert(escrow_of(gone.side(o.side), o.owner) == escrow_of(side, o.owner) - owed(
                    o,
                    o.owner,
                ));
                assert(escrowed_at(s.book, s.accounts, o.owner));
                assert(s.accounts[o.owner as int].spec_get(asset).reserved == escrow_of(
                    side,
                    o.owner,
                ));
                let amount = o.escrow() as u64;
                assert(release_spec(s.accounts, o.owner, asset, amount) is Ok);
                lemma_release(s.accounts, o.owner, asset, amount, Asset::Base);
                lemma_release(s.accounts, o.owner, asset, amount, Asset::Quote);
                let after = s.cancel_order(cancel, authorized).0;
                assert forall|a: usize| a < after.accounts.len() implies #[trigger] escrowed_at(
                    after.book,
                    after.accounts,
                    a,
                ) by {
                    assert(escrowed_at(s.book, s.accounts, a));
                    assert(escrow_of(gone.side(o.side), a) == escrow_of(side, a) - owed(o, a));
                    assert(gone.side(o.side.spec_opposite()) == s.book.side(
                        o.side.spec_opposite(),
                    ));
                }
            }
        }
    }
}

/// Every instruction keeps the state well formed, so that after each one
/// the book is not crossed: the best bid is below the best ask, or one side
/// is empty. Every instruction leaves the sum of all holdings of each asset
/// as it was, and a rejected instruction leaves the whole state as it was.
pub proof fn lemma_step(s: ExchangeState, request: Request)
    requires
        s.wf(),
    ensures
        s.step(request).0.wf(),
        s.step(request).0.book.uncrossed(),
        s.step(request).1 is Err ==> s.step(request).0 == s,
        total(s.step(request).0.accounts, Asset::Base) == total(s.accounts, Asset::Base),
        total(s.step(request).0.accounts, Asset::Quote) == total(s.accounts, Asset::Quote),
{
    match request.instruction {
        Instruction::InitializeMarket { base_asset, quote_asset } => {},
        Instruction::PlaceOrder(order) => {
            lemma_place_order(s, order, request.authorized);
        },
        Instruction::CancelOrder(cancel) => {
            lemma_cancel_order(s, cancel, request.authorized);
        },
        Instruction::CloseMarket { market_id } => {},
    }
}

/// After any sequence of instructions the state is well formed and the
/// book is not crossed, and the ledger holds of each asset what it held
/// before.
pub proof fn lemma_replay(s: ExchangeState, log: Seq<Request>)
    requires
        s.wf(),
    ensures
        s.replay(log).wf(),
        s.replay(log).book.uncrossed(),
        total(s.replay(log).accounts, Asset::Base) == total(s.accounts, Asset::Base),
        total(s.replay(log).accounts, Asset::Quote) == total(s.accounts, Asset::Quote),
    decreases log.len(),
{
    if log.len() > 0 {
        lemma_step(s, log[0]);
        lemma_replay(s.step(log[0]).0, log.skip(1));
    }
}

/// Cancelling is not repeated: once an order was cancelled, cancelling it
/// again fails with `OrderNotFound` and changes nothing, so that no escrow
/// is released twice.
pub proof fn lemma_cancel_twice(s: ExchangeState, cancel: CancelOrder, authorized: bool)
    requires
        s.wf(),
        s.cancel_order(cancel, authorized).1 is Ok,
    ensures
        s.cancel_order(cancel, authorized).0.cancel_order(cancel, authorized) == (
            s.cancel_order(cancel, authorized).0,
            Err::<u64, DexError>(DexError::OrderNotFound),
        ),
{
    lemma_without(s.book, cancel.order_id);
}

/// An order that is not in the book cannot be cancelled: whoever asks, the
/// cancellation fails and changes nothing; where the instruction passes the
/// entry check, the failure is `OrderNotFound`.
pub proof fn lemma_cancel_absent(s: ExchangeState, cancel: CancelOrder, authorized: bool)
    requires
        !s.book.contains_id(cancel.order_id),
    ensures
        s.cancel_order(cancel, authorized).0 == s,
        s.cancel_order(cancel, authorized).1 is Err,
        s.entry_check(cancel.market_id, authorized) is Ok ==> s.cancel_order(cancel, authorized).1
            == Err::<u64, DexError>(DexError::OrderNotFound),
{
}

/// A resting order that a pass fills in full leaves the book, and the
/// incoming order is in the book afterwards only where a remainder of it
/// rests. So neither can be cancelled after it was filled.
pub proof fn lemma_filled_orders_leave(book: BookState, incoming: Order, k: int)
    requires
        book.wf(),
        match_check(book, incoming) is Ok,
        0 <= k < matched(book, incoming).fills.len(),
    ensures
        matched(book, incoming).fills[k].maker_order_id == book.side(
            incoming.side.spec_opposite(),
        )[k].id,
        matched(book, incoming).fills[k].quantity == book.side(
            incoming.side.spec_opposite(),
        )[k].remaining ==> !matched(book, incoming).book.contains_id(
            matched(book, incoming).fills[k].maker_order_id,
        ),
        matched(book, incoming).remainder is None ==> !matched(book, incoming).book.contains_id(
            incoming.id,
        ),
{
    let other = incoming.side.spec_opposite();
    let makers = book.side(other);
    let m = matched(book, incoming);
    assert forall|i: int| 0 <= i < makers.len() implies (#[trigger] makers[i]).remaining > 0 by {
        assert(makers[i].is_resting());
    }
    let r = lemma_match_outcome(makers, incoming, incoming.remaining);
    lemma_matched(book, incoming);
    crate::book::lemma_consumed(makers, r.0, r.1, other, book.market);
    let id = makers[k].id;
    if m.fills[k].quantity == makers[k].remaining {
        assert(k < r.0);
        assert(crate::book::has_id(makers, id));
        let left = m.book.side(other);
        if crate::book::has_id(left, id) {
            let i = choose|i: int| 0 <= i < left.len() && (#[trigger] left[i]).id == id;
            assert(left[i].id == makers[i + r.0].id);
            assert(makers[k].id != makers[i + r.0].id);
        }
        let own = book.side(incoming.side);
        if crate::book::has_id(own, id) {
            let j = choose|j: int| 0 <= j < own.len() && (#[trigger] own[j]).id == id;
            match incoming.side {
                Side::Bid => {
                    assert(book.bids[j].id != book.asks[k].id);
                },
                Side::Ask => {
                    assert(book.bids[k].id != book.asks[j].id);
                },
            }
        }
    }
}

/// Determinism: the state after a log is a function of the state before
/// and the log. Two replays of equal logs from equal states end in equal
/// states, book and balances alike, and a replay can be cut at any point
/// and taken up again.
pub proof fn lemma_replay_deterministic(
    a: ExchangeState,
    b: ExchangeState,
    log_a: Seq<Request>,
    log_b: Seq<Request>,
)
    requires
        a == b,
        log_a =~= log_b,
    ensures
        a.replay(log_a) == b.replay(log_b),
        a.replay(log_a).book == b.replay(log_b).book,
        a.replay(log_a).accounts == b.replay(log_b).accounts,
{
}

/// A replay can be cut at any point and taken up again: replaying a log is
/// replaying its first part and then the rest from where that ended.
pub proof fn lemma_replay_split(s: ExchangeState, first: Seq<Request>, second: Seq<Request>)
    ensures
        s.replay(first + second) == s.replay(first).replay(second),
    decreases first.len(),
{
    if first.len() == 0 {
        assert(first + second =~= second);
    } else {
        assert((first + second)[0] == first[0]);
        assert((first + second).skip(1) =~= first.skip(1) + second);
        lemma_replay_split(s.step(first[0]).0, first.skip(1), second);
    }
}

} // verus!
