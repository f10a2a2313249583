//! The instruction processor: the state of one market and the
//! instructions that change it, each as one unit of work.

use crate::book::{
    escrow_of, lemma_escrow_nonneg, side_bounded, BookState, Limits, OrderBook,
};
use crate::error::DexError;
use crate::ledger::{
    accounts_wf, credit_spec, debit_spec, release_spec, reserve_spec, total, AccountBalances,
    Asset, Ledger,
};
use crate::matching::{match_check, match_order, matched};
use crate::order::{Fill, Order, OrderStatus, OrderType, Side};
use crate::settlement::{base_volume, lemma_volume_nonneg, quote_volume, settle, settle_spec};
use crate::theorems::{
    lemma_cancel_order, lemma_deposit, lemma_fresh_id, lemma_open_account, lemma_place_order,
    lemma_withdraw,
};
use vstd::prelude::*;

verus! {

/// The identity of a market: its id and the two assets of its pair.
#[derive(Clone, Copy, Debug, PartialEq, Eq, Structural)]
pub struct Market {
    pub id: u64,
    pub base_asset: u64,
    pub quote_asset: u64,
}

/// Where a market stands in its life.
#[derive(Clone, Copy, Debug, PartialEq, Eq, Structural)]
pub enum Phase {
    /// The state exists, the market has not been initialized.
    Uninitialized,
    /// Orders are accepted.
    Active,
    /// The market was closed, with an empty book, for good.
    Closed,
}

/// The instruction that places an order.
#[derive(Clone, Copy, Debug, PartialEq, Eq)]
pub struct PlaceOrder {
    pub market_id: u64,
    /// The account the order is placed for.
    pub owner: usize,
    pub side: Side,
    pub order_type: OrderType,
    /// The limit price; a market order needs none.
    pub price: Option<u64>,
    pub quantity: u64,
}

/// The instruction that cancels a resting order.
#[derive(Clone, Copy, Debug, PartialEq, Eq)]
pub struct CancelOrder {
    pub market_id: u64,
    /// The account of the caller, which must own the order.
    pub owner: usize,
    pub order_id: u64,
}

/// The instructions of a market.
#[derive(Clone, Copy, Debug, PartialEq, Eq)]
pub enum Instruction {
    InitializeMarket { base_asset: u64, quote_asset: u64 },
    PlaceOrder(PlaceOrder),
    CancelOrder(CancelOrder),
    CloseMarket { market_id: u64 },
}

/// An instruction as it arrives: with the host's verdict on whether its
/// signer may act for the account it names.
#[derive(Clone, Copy, Debug, PartialEq, Eq)]
pub struct Request {
    pub instruction: Instruction,
    pub authorized: bool,
}

/// What a finalized instruction returns.
#[derive(Debug, PartialEq, Eq)]
pub enum Outcome {
    MarketInitialized { market_id: u64 },
    OrderPlaced { order_id: u64, fills: Vec<Fill> },
    OrderCancelled { released_quantity: u64 },
    MarketClosed,
}

/// What a finalized instruction returns, as a value of the model.
pub enum Receipt {
    MarketInitialized { market_id: u64 },
    OrderPlaced { order_id: u64, fills: Seq<Fill> },
    OrderCancelled { released_quantity: u64 },
    MarketClosed,
}

impl View for Outcome {
    type V = Receipt;

    open spec fn view(&self) -> Receipt {
        match *self {
            Outcome::MarketInitialized { market_id } => Receipt::MarketInitialized { market_id },
            Outcome::OrderPlaced { order_id, fills } => Receipt::OrderPlaced {
                order_id,
                fills: fills@,
            },
            Outcome::OrderCancelled { released_quantity } => Receipt::OrderCancelled {
                released_quantity,
            },
            Outcome::MarketClosed => Receipt::MarketClosed,
        }
    }
}

/// The asset in which an order of `side` is escrowed: a bid pays in the
/// quote asset, an ask delivers the base asset.
pub open spec fn spec_escrow_asset(side: Side) -> Asset {
    match side {
        Side::Bid => Asset::Quote,
        Side::Ask => Asset::Base,
    }
}

/// The asset in which an order of `side` is escrowed.
#[verifier::when_used_as_spec(spec_escrow_asset)]
pub fn escrow_asset(side: Side) -> (a: Asset)
    ensures
        a == spec_escrow_asset(side),
{
    match side {
        Side::Bid => Asset::Quote,
        Side::Ask => Asset::Base,
    }
}

/// What the owner of an incoming order of `side` pays in `fills`: as a
/// buyer the quote volume, as a seller the base volume.
pub open spec fn volume(side: Side, fills: Seq<Fill>) -> int {
    match side {
        Side::Bid => quote_volume(fills),
        Side::Ask => base_volume(fills),
    }
}

/// The reservation for a new order: what its fills cost its owner, and the
/// escrow of what is left to rest.
pub open spec fn taker_need(side: Side, fills: Seq<Fill>, remainder: Option<Order>) -> int {
    volume(side, fills) + match remainder {
        Some(o) => o.escrow(),
        None => 0,
    }
}

fn traded(side: Side, fills: &Vec<Fill>) -> (r: Option<u64>)
    ensures
        r == if volume(side, fills@) <= u64::MAX {
            Some(volume(side, fills@) as u64)
        } else {
            None
        },
{
    let mut acc: u64 = 0;
    let mut i: usize = 0;
    assert(fills@.skip(0) =~= fills@);
    while i < fills.len()
        invariant
            i <= fills.len(),
            acc + volume(side, fills@.skip(i as int)) == volume(side, fills@),
        decreases fills.len() - i,
    {
        let f = fills[i];
        proof {
            let rest = fills@.skip(i as int);
            assert(rest[0] == f);
            assert(rest.skip(1) =~= fills@.skip(i + 1));
            lemma_volume_nonneg(fills@.skip(i + 1));
            assert(f.price * f.quantity >= 0) by (nonlinear_arith);
        }
        let amount = match side {
            Side::Ask => Some(f.quantity),
            Side::Bid => f.price.checked_mul(f.quantity),
        };
        let next = match amount {
            None => {
                return None;
            },
            Some(a) => acc.checked_add(a),
        };
        match next {
            None => {
                return None;
            },
            Some(n) => {
                acc = n;
            },
        }
        i = i + 1;
    }
    Some(acc)
}

fn required_escrow(side: Side, fills: &Vec<Fill>, remainder: Option<Order>) -> (r: Option<u64>)
    ensures
        r == if taker_need(side, fills@, remainder) <= u64::MAX {
            Some(taker_need(side, fills@, remainder) as u64)
        } else {
            None
        },
{
    proof {
        lemma_volume_nonneg(fills@);
        if let Some(o) = remainder {
            assert(o.price * o.remaining >= 0) by (nonlinear_arith);
        }
    }
    let resting = match remainder {
        None => Some(0),
        Some(o) => o.escrow_amount(),
    };
    match (traded(side, fills), resting) {
        (Some(t), Some(e)) => t.checked_add(e),
        _ => None,
    }
}

fn side_within(
    book: &OrderBook,
    side: Side,
    next_id: u64,
    next_seq: u64,
    accounts: usize,
) -> (ok: bool)
    ensures
        ok == side_bounded(
            book@.side(side),
            Limits { next_id, next_seq, accounts: accounts as nat },
        ),
{
    let ghost limits = Limits { next_id, next_seq, accounts: accounts as nat };
    let depth = book.depth(side);
    let mut i: usize = 0;
    while i < depth
        invariant
            i <= depth,
            depth == book@.side(side).len(),
            limits == (Limits { next_id, next_seq, accounts: accounts as nat }),
            forall|k: int| 0 <= k < i ==> limits.admits(#[trigger] book@.side(side)[k]),
        decreases depth - i,
    {
        match book.peek(side, i) {
            Some(o) => {
                if o.id >= next_id || o.seq >= next_seq || o.owner >= accounts {
                    assert(!limits.admits(book@.side(side)[i as int]));
                    return false;
                }
            },
            None => {},
        }
        i = i + 1;
    }
    true
}

/// What `account` has reserved, of each asset, is what its resting orders
/// in `book` need as escrow.
pub open spec fn escrowed_at(
    book: BookState,
    accounts: Seq<AccountBalances>,
    account: usize,
) -> bool {
    &&& accounts[account as int].base.reserved == escrow_of(book.asks, account)
    &&& accounts[account as int].quote.reserved == escrow_of(book.bids, account)
}

fn escrow_matches(book: &OrderBook, ledger: &Ledger) -> (ok: bool)
    ensures
        ok == (forall|a: usize| a < ledger@.len() ==> #[trigger] escrowed_at(book@, ledger@, a)),
{
    let n = ledger.len();
    let mut a: usize = 0;
    while a < n
        invariant
            a <= n,
            n == ledger@.len(),
            forall|k: usize| k < a ==> #[trigger] escrowed_at(book@, ledger@, k),
        decreases n - a,
    {
        let held = match ledger.balances(a) {
            Some(held) => held,
            None => {
                return false;
            },
        };
        proof {
            lemma_escrow_nonneg(book@.asks, a);
            lemma_escrow_nonneg(book@.bids, a);
        }
        let base_ok = match book.escrow(Side::Ask, a) {
            Some(e) => e == held.base.reserved,
            None => false,
        };
        let quote_ok = match book.escrow(Side::Bid, a) {
            Some(e) => e == held.quote.reserved,
            None => false,
        };
        if !base_ok || !quote_ok {
            assert(!escrowed_at(book@, ledger@, a));
            return false;
        }
        a = a + 1;
    }
    true
}

/// The whole state of one market: its identity and phase, its book, the
/// balances in its vaults, and the numbers that the next order gets.
pub struct ExchangeState {
    pub market: Market,
    pub phase: Phase,
    pub book: BookState,
    /// One record per account; an account is known by its index.
    pub accounts: Seq<AccountBalances>,
    pub next_order_id: u64,
    pub next_seq: u64,
}

impl ExchangeState {
    /// The numbers that have been given out.
    pub open spec fn limits(self) -> Limits {
        Limits {
            next_id: self.next_order_id,
            next_seq: self.next_seq,
            accounts: self.accounts.len(),
        }
    }

    /// What every account has reserved is what its resting orders need as
    /// escrow, exactly: of the base asset the remaining quantities of its
    /// asks, of the quote asset price times remaining quantity of its bids.
    pub open spec fn escrowed(self) -> bool {
        forall|a: usize|
            a < self.accounts.len() ==> #[trigger] escrowed_at(self.book, self.accounts, a)
    }

    /// What holds between instructions: the book is well formed, belongs to
    /// the market and is not crossed; every balance is well formed; every
    /// resting order has an id and a sequence number that were given out,
    /// so that a new order comes after it in time, and an owner that the
    /// ledger knows; the reserved balances are the escrow of the resting
    /// orders; and only an active market has resting orders.
    pub open spec fn wf(self) -> bool {
        &&& self.book.wf()
        &&& self.book.uncrossed()
        &&& self.book.market == self.market.id
        &&& accounts_wf(self.accounts)
        &&& self.book.bounded(self.limits())
        &&& self.escrowed()
        &&& self.phase != Phase::Active ==> self.book.bids.len() == 0 && self.book.asks.len() == 0
    }

    /// The checks that every instruction on a running market passes first:
    /// the market is active, it is the market named, and the signer is
    /// authorized.
    pub open spec fn entry_check(self, market_id: u64, authorized: bool) -> Result<(), DexError> {
        if self.phase != Phase::Active {
            Err(DexError::MarketNotInitialized)
        } else if market_id != self.market.id {
            Err(DexError::WrongMarket)
        } else if !authorized {
            Err(DexError::Unauthorized)
        } else {
            Ok(())
        }
    }

    /// The state with a new account that holds nothing.
    pub open spec fn open_account(self) -> ExchangeState {
        ExchangeState { accounts: self.accounts.push(AccountBalances::empty()), ..self }
    }

    /// A deposit into what `account` has available of `asset`.
    pub open spec fn deposit(self, account: usize, asset: Asset, amount: u64) -> (
        ExchangeState,
        Result<(), DexError>,
    ) {
        match credit_spec(self.accounts, account, asset, amount) {
            Ok(accounts) => (ExchangeState { accounts, ..self }, Ok(())),
            Err(e) => (self, Err(DexError::spec_from_settlement(e))),
        }
    }

    /// A withdrawal from what `account` has available of `asset`.
    pub open spec fn withdraw(self, account: usize, asset: Asset, amount: u64) -> (
        ExchangeState,
        Result<(), DexError>,
    ) {
        match debit_spec(self.accounts, account, asset, amount) {
            Ok(accounts) => (ExchangeState { accounts, ..self }, Ok(())),
            Err(e) => (self, Err(DexError::spec_from_settlement(e))),
        }
    }

    /// Initializing the market: only a state that was never initialized
    /// takes it, and only from an authorized signer. The market becomes
    /// active with the pair given, and its id is returned.
    pub open spec fn initialize_market(self, base_asset: u64, quote_asset: u64, authorized: bool)
        -> (ExchangeState, Result<u64, DexError>) {
        if self.phase != Phase::Uninitialized {
            (self, Err(DexError::MarketAlreadyInitialized))
        } else if !authorized {
            (self, Err(DexError::Unauthorized))
        } else {
            (
                ExchangeState {
                    market: Market { id: self.market.id, base_asset, quote_asset },
                    phase: Phase::Active,
                    ..self
                },
                Ok(self.market.id),
            )
        }
    }

    /// The order that a `PlaceOrder` instruction brings in: it gets the next
    /// id and the next sequence number, and starts open with its whole
    /// quantity remaining.
    pub open spec fn incoming(self, order: PlaceOrder) -> Order {
        Order {
            id: self.next_order_id,
            owner: order.owner,
            market: self.market.id,
            side: order.side,
            order_type: order.order_type,
            price: match order.price {
                Some(p) => p,
                None => 0,
            },
            remaining: order.quantity,
            original: order.quantity,
            seq: self.next_seq,
            status: OrderStatus::Open,
        }
    }

    /// Validation of a `PlaceOrder` instruction: it passes the entry check,
    /// its owner is an account of the ledger, the counters have a next
    /// number, and the order it brings in passes the matching engine's
    /// check. The first of these that fails is the failure; where none
    /// fails, the incoming order is the result.
    pub open spec fn validate(self, order: PlaceOrder, authorized: bool) -> Result<
        Order,
        DexError,
    > {
        match self.entry_check(order.market_id, authorized) {
            Err(e) => Err(e),
            Ok(_) => if order.owner >= self.accounts.len() {
                Err(DexError::UnknownAccount)
            } else if self.next_order_id == u64::MAX || self.next_seq == u64::MAX {
                Err(DexError::ArithmeticOverflow)
            } else {
                match match_check(self.book, self.incoming(order)) {
                    Err(e) => Err(e),
                    Ok(_) => Ok(self.incoming(order)),
                }
            },
        }
    }

    /// Placing an order, where it succeeds: the state afterwards and the
    /// fills. The instruction is validated; the order is matched; its owner
    /// reserves what the fills cost and what the remainder needs as escrow;
    /// and the fills are settled. The first of these that fails is the
    /// failure of the instruction.
    pub open spec fn try_place(self, order: PlaceOrder, authorized: bool) -> Result<
        (ExchangeState, Seq<Fill>),
        DexError,
    > {
        match self.validate(order, authorized) {
            Err(e) => Err(e),
            Ok(incoming) => {
                let m = matched(self.book, incoming);
                let need = taker_need(order.side, m.fills, m.remainder);
                if need > u64::MAX {
                    Err(DexError::ArithmeticOverflow)
                } else {
                    match reserve_spec(
                        self.accounts,
                        order.owner,
                        spec_escrow_asset(order.side),
                        need as u64,
                    ) {
                        Err(e) => Err(DexError::spec_from_settlement(e)),
                        Ok(reserved) => match settle_spec(reserved, m.fills) {
                            Err(e) => Err(DexError::spec_from_settlement(e)),
                            Ok(settled) => Ok(
                                (
                                    ExchangeState {
                                        book: m.book,
                                        accounts: settled,
                                        next_order_id: (self.next_order_id + 1) as u64,
                                        next_seq: (self.next_seq + 1) as u64,
                                        ..self
                                    },
                                    m.fills,
                                ),
                            ),
                        },
                    }
                }
            },
        }
    }

    /// Placing an order: on success the new state, the order's id and the
    /// fills; on failure the state as it was and the error.
    pub open spec fn place_order(self, order: PlaceOrder, authorized: bool) -> (
        ExchangeState,
        Result<(u64, Seq<Fill>), DexError>,
    ) {
        match self.try_place(order, authorized) {
            Ok(done) => (done.0, Ok((self.next_order_id, done.1))),
            Err(e) => (self, Err(e)),
        }
    }

    /// Cancelling an order: the instruction passes the entry check, the order must
    /// rest in the book and belong to the caller; its escrow is released
    /// and it leaves the book. The remaining quantity is returned. On
    /// failure the state stays as it was.
    pub open spec fn cancel_order(self, cancel: CancelOrder, authorized: bool) -> (
        ExchangeState,
        Result<u64, DexError>,
    ) {
        match self.entry_check(cancel.market_id, authorized) {
            Err(e) => (self, Err(e)),
            Ok(_) => match self.book.lookup(cancel.order_id) {
                None => (self, Err(DexError::OrderNotFound)),
                Some(o) => if o.owner != cancel.owner {
                    (self, Err(DexError::Unauthorized))
                } else if o.escrow() > u64::MAX {
                    (self, Err(DexError::ArithmeticOverflow))
                } else {
                    match release_spec(
                        self.accounts,
                        o.owner,
                        spec_escrow_asset(o.side),
                        o.escrow() as u64,
                    ) {
                        Err(e) => (self, Err(DexError::spec_from_settlement(e))),
                        Ok(accounts) => (
                            ExchangeState {
                                book: self.book.without(cancel.order_id),
                                accounts,
                                ..self
                            },
                            Ok(o.remaining),
                        ),
                    }
                },
            },
        }
    }

    /// Closing the market: the instruction passes the entry check and the book must be
    /// empty. On failure the state stays as it was.
    pub open spec fn close_market(self, market_id: u64, authorized: bool) -> (
        ExchangeState,
        Result<(), DexError>,
    ) {
        match self.entry_check(market_id, authorized) {
            Err(e) => (self, Err(e)),
            Ok(_) => if self.book.bids.len() > 0 || self.book.asks.len() > 0 {
                (self, Err(DexError::MarketNotEmpty))
            } else {
                (ExchangeState { phase: Phase::Closed, ..self }, Ok(()))
            },
        }
    }

    /// One instruction: the state afterwards, and the receipt or the
    /// error.
    pub open spec fn step(self, request: Request) -> (ExchangeState, Result<Receipt, DexError>) {
        match request.instruction {
            Instruction::InitializeMarket { base_asset, quote_asset } => {
                let (state, result) = self.initialize_market(
                    base_asset,
                    quote_asset,
                    request.authorized,
                );
                (
                    state,
                    match result {
                        Ok(market_id) => Ok(Receipt::MarketInitialized { market_id }),
                        Err(e) => Err(e),
                    },
                )
            },
            Instruction::PlaceOrder(order) => {
                let (state, result) = self.place_order(order, request.authorized);
                (
                    state,
                    match result {
                        Ok(placed) => Ok(
                            Receipt::OrderPlaced { order_id: placed.0, fills: placed.1 },
                        ),
                        Err(e) => Err(e),
                    },
                )
            },
            Instruction::CancelOrder(cancel) => {
                let (state, result) = self.cancel_order(cancel, request.authorized);
                (
                    state,
                    match result {
                        Ok(released_quantity) => Ok(Receipt::OrderCancelled { released_quantity }),
                        Err(e) => Err(e),
                    },
                )
            },
            Instruction::CloseMarket { market_id } => {
                let (state, result) = self.close_market(market_id, request.authorized);
                (
                    state,
                    match result {
                        Ok(_) => Ok(Receipt::MarketClosed),
                        Err(e) => Err(e),
                    },
                )
            },
        }
    }

    /// The state after the instructions of `log`, one after the other.
    pub open spec fn replay(self, log: Seq<Request>) -> ExchangeState
        decreases log.len(),
    {
        if log.len() == 0 {
            self
        } else {
            self.step(log[0]).0.replay(log.skip(1))
        }
    }
}

/// One market of the exchange: the state machine that takes instructions
/// one at a time. Each instruction either runs to its end or leaves no
/// trace.
pub struct Exchange {
    market: Market,
    phase: Phase,
    book: OrderBook,
    ledger: Ledger,
    next_order_id: u64,
    next_seq: u64,
}

impl View for Exchange {
    type V = ExchangeState;

    closed spec fn view(&self) -> ExchangeState {
        ExchangeState {
            market: self.market,
            phase: self.phase,
            book: self.book@,
            accounts: self.ledger@,
            next_order_id: self.next_order_id,
            next_seq: self.next_seq,
        }
    }
}

/// The stages that an instruction passes through. A finalized instruction
/// has passed through the first five in their order; an instruction that
/// fails at any point is rejected and leaves no trace.
#[derive(Clone, Copy, Debug, PartialEq, Eq, Structural)]
pub enum Stage {
    Received,
    Validated,
    Matched,
    Settled,
    Finalized,
    Rejected,
}

impl Stage {
    /// The stage that follows this one when all goes well. The two last
    /// stages have none: they follow themselves.
    pub open spec fn spec_next(self) -> Stage {
        match self {
            Stage::Received => Stage::Validated,
            Stage::Validated => Stage::Matched,
            Stage::Matched => Stage::Settled,
            Stage::Settled => Stage::Finalized,
            Stage::Finalized => Stage::Finalized,
            Stage::Rejected => Stage::Rejected,
        }
    }

    /// The stage that follows this one when all goes well.
    #[verifier::when_used_as_spec(spec_next)]
    pub fn next(self) -> (r: Stage)
        ensures
            r == self.spec_next(),
    {
        match self {
            Stage::Received => Stage::Validated,
            Stage::Validated => Stage::Matched,
            Stage::Matched => Stage::Settled,
            Stage::Settled => Stage::Finalized,
            Stage::Finalized => Stage::Finalized,
            Stage::Rejected => Stage::Rejected,
        }
    }

    /// Whether an instruction ends in this stage.
    pub open spec fn spec_is_final(self) -> bool {
        self == Stage::Finalized || self == Stage::Rejected
    }

    /// Whether an instruction ends in this stage.
    #[verifier::when_used_as_spec(spec_is_final)]
    pub fn is_final(self) -> (r: bool)
        ensures
            r == self.spec_is_final(),
    {
        match self {
            Stage::Finalized | Stage::Rejected => true,
            _ => false,
        }
    }
}

/// The boundary of one unit of work: the state as it was when the unit
/// began, kept until the unit is committed or rolled back, and the stage
/// that the unit has reached.
pub struct Transaction {
    saved: Exchange,
    stage: Stage,
}

impl Transaction {
    /// The stage that the unit has reached.
    pub closed spec fn spec_stage(&self) -> Stage {
        self.stage
    }

    /// The stage that the unit has reached.
    #[verifier::when_used_as_spec(spec_stage)]
    pub fn stage(&self) -> (r: Stage)
        ensures
            r == self.spec_stage(),
    {
        self.stage
    }

    /// Records that the unit has passed one more stage: it is validated
    /// after it was received, matched after that, settled after that. The
    /// step from settled to finalized is `commit`.
    pub fn advance(&mut self)
        requires
            old(self).spec_stage() == Stage::Received || old(self).spec_stage() == Stage::Validated
                || old(self).spec_stage() == Stage::Matched,
        ensures
            final(self).spec_stage() == old(self).spec_stage().spec_next(),
            final(self)@ == old(self)@,
    {
        self.stage = self.stage.next();
    }
}

impl View for Transaction {
    type V = ExchangeState;

    closed spec fn view(&self) -> ExchangeState {
        self.saved@
    }
}

impl Exchange {
    /// The state is one that instructions leave behind.
    pub open spec fn wf(&self) -> bool {
        self@.wf()
    }

    /// The state of a market that has the id `market_id` and is yet to be
    /// initialized: no accounts, no orders, and 1 as the first order id and
    /// the first sequence number.
    pub fn new(market_id: u64) -> (e: Exchange)
        ensures
            e.wf(),
            e@ == (ExchangeState {
                market: Market { id: market_id, base_asset: 0, quote_asset: 0 },
                phase: Phase::Uninitialized,
                book: BookState { market: market_id, bids: Seq::empty(), asks: Seq::empty() },
                accounts: Seq::empty(),
                next_order_id: 1,
                next_seq: 1,
            }),
    {
        Exchange {
            market: Market { id: market_id, base_asset: 0, quote_asset: 0 },
            phase: Phase::Uninitialized,
            book: OrderBook::new(market_id),
            ledger: Ledger::new(),
            next_order_id: 1,
            next_seq: 1,
        }
    }

    /// The state of a market as it was stored: its identity and phase, its
    /// book, its ledger and its two counters. Fails with `InvalidState` if
    /// the parts do not make a state that instructions leave behind: if the
    /// book is of another market or crossed, if a resting order has an id
    /// or a sequence number that the counters have not reached or an owner
    /// that the ledger does not know, if an account's reserved balances are
    /// not the escrow of its resting orders, or if a market that is not
    /// active has resting orders.
    pub fn restore(
        market: Market,
        phase: Phase,
        book: OrderBook,
        ledger: Ledger,
        next_order_id: u64,
        next_seq: u64,
    ) -> (r: Result<Exchange, DexError>)
        requires
            book.wf(),
            ledger.wf(),
        ensures
            match r {
                Ok(e) => e.wf() && e@ == (ExchangeState {
                    market,
                    phase,
                    book: book@,
                    accounts: ledger@,
                    next_order_id,
                    next_seq,
                }),
                Err(x) => x == DexError::InvalidState && !(ExchangeState {
                    market,
                    phase,
                    book: book@,
                    accounts: ledger@,
                    next_order_id,
                    next_seq,
                }).wf(),
            },
    {
        if book.market_id() != market.id {
            return Err(DexError::InvalidState);
        }
        match (book.best_bid(), book.best_ask()) {
            (Some(bid), Some(ask)) => {
                if bid.price >= ask.price {
                    return Err(DexError::InvalidState);
                }
            },
            _ => {},
        }
        match phase {
            Phase::Active => {},
            _ => {
                if !book.is_empty() {
                    return Err(DexError::InvalidState);
                }
            },
        }
        if !side_within(&book, Side::Bid, next_order_id, next_seq, ledger.len()) || !side_within(
            &book,
            Side::Ask,
            next_order_id,
            next_seq,
            ledger.len(),
        ) {
            return Err(DexError::InvalidState);
        }
        if !escrow_matches(&book, &ledger) {
            return Err(DexError::InvalidState);
        }
        Ok(Exchange { market, phase, book, ledger, next_order_id, next_seq })
    }

    /// The sequence number that the next order gets.
    pub fn next_seq(&self) -> (seq: u64)
        ensures
            seq == self@.next_seq,
    {
        self.next_seq
    }

    /// The market's identity.
    pub fn market(&self) -> (m: Market)
        ensures
            m == self@.market,
    {
        self.market
    }

    /// The market's phase.
    pub fn phase(&self) -> (p: Phase)
        ensures
            p == self@.phase,
    {
        self.phase
    }

    /// The order book.
    pub fn book(&self) -> (b: &OrderBook)
        ensures
            b@ == self@.book,
    {
        &self.book
    }

    /// The ledger.
    pub fn ledger(&self) -> (l: &Ledger)
        ensures
            l@ == self@.accounts,
    {
        &self.ledger
    }

    /// The id that the next order gets.
    pub fn next_order_id(&self) -> (id: u64)
        ensures
            id == self@.next_order_id,
    {
        self.next_order_id
    }

    /// Adds an account that holds nothing, and returns its reference.
    pub fn open_account(&mut self) -> (account: usize)
        requires
            old(self).wf(),
        ensures
            final(self).wf(),
            account == old(self)@.accounts.len(),
            final(self)@ == old(self)@.open_account(),
    {
        proof {
            lemma_open_account(self@);
        }
        self.ledger.open_account()
    }

    /// Deposits `amount` of `asset` for `account`. Fails, and changes
    /// nothing, on an unknown account or where the account's holdings would
    /// leave the range of `u64`.
    pub fn deposit(&mut self, account: usize, asset: Asset, amount: u64) -> (r: Result<
        (),
        DexError,
    >)
        requires
            old(self).wf(),
        ensures
            final(self).wf(),
            final(self)@ == old(self)@.deposit(account, asset, amount).0,
            r == old(self)@.deposit(account, asset, amount).1,
    {
        proof {
            lemma_deposit(self@, account, asset, amount);
        }
        match self.ledger.credit(account, asset, amount) {
            Ok(_) => Ok(()),
            Err(e) => Err(DexError::from_settlement(e)),
        }
    }

    /// Withdraws `amount` of what `account` has available of `asset`.
    /// Fails, and changes nothing, on an unknown account or where less is
    /// available.
    pub fn withdraw(&mut self, account: usize, asset: Asset, amount: u64) -> (r: Result<
        (),
        DexError,
    >)
        requires
            old(self).wf(),
        ensures
            final(self).wf(),
            final(self)@ == old(self)@.withdraw(account, asset, amount).0,
            r == old(self)@.withdraw(account, asset, amount).1,
    {
        proof {
            lemma_withdraw(self@, account, asset, amount);
        }
        match self.ledger.debit(account, asset, amount) {
            Ok(_) => Ok(()),
            Err(e) => Err(DexError::from_settlement(e)),
        }
    }

    fn entry_check(&self, market_id: u64, authorized: bool) -> (r: Result<(), DexError>)
        ensures
            r == self@.entry_check(market_id, authorized),
    {
        match self.phase {
            Phase::Active => {},
            _ => {
                return Err(DexError::MarketNotInitialized);
            },
        }
        if market_id != self.market.id {
            Err(DexError::WrongMarket)
        } else if !authorized {
            Err(DexError::Unauthorized)
        } else {
            Ok(())
        }
    }

    /// Begins a unit of work: keeps a copy of the whole state, to which
    /// `rollback` returns. The unit starts as received.
    pub fn begin(&self) -> (tx: Transaction)
        ensures
            tx@ == self@,
            tx.spec_stage() == Stage::Received,
    {
        Transaction {
            saved: Exchange {
                market: self.market,
                phase: self.phase,
                book: self.book.snapshot(),
                ledger: self.ledger.snapshot(),
                next_order_id: self.next_order_id,
                next_seq: self.next_seq,
            },
            stage: Stage::Received,
        }
    }

    /// Ends a settled unit of work for good: the state stays as the unit
    /// left it, the copy is dropped, and the unit is finalized.
    pub fn commit(&mut self, tx: Transaction) -> (stage: Stage)
        requires
            tx.spec_stage() == Stage::Settled,
        ensures
            stage == Stage::Finalized,
            final(self)@ == old(self)@,
    {
        tx.stage.next()
    }

    /// Undoes a unit of work, at whatever stage it is: book, balances,
    /// counters and phase are again what they were when it began, and the
    /// unit is rejected.
    pub fn rollback(&mut self, tx: Transaction) -> (stage: Stage)
        requires
            tx@.wf(),
        ensures
            stage == Stage::Rejected,
            final(self)@ == tx@,
            final(self).wf(),
    {
        *self = tx.saved;
        Stage::Rejected
    }

    /// Validates a `PlaceOrder` instruction and returns the order that it
    /// brings in, with the next id and the next sequence number. Fails if
    /// the market is not active or not the one named, the signer is not
    /// authorized, the owner is no account of the ledger, the counters are
    /// exhausted, an order that is not a market order has no price, or the
    /// quantity is zero.
    pub fn validate(&self, order: PlaceOrder, authorized: bool) -> (r: Result<Order, DexError>)
        requires
            self.wf(),
        ensures
            r == self@.validate(order, authorized),
    {
        match self.entry_check(order.market_id, authorized) {
            Err(e) => {
                return Err(e);
            },
            Ok(_) => {},
        }
        if order.owner >= self.ledger.len() {
            return Err(DexError::UnknownAccount);
        }
        if self.next_order_id == u64::MAX || self.next_seq == u64::MAX {
            return Err(DexError::ArithmeticOverflow);
        }
        let incoming = Order {
            id: self.next_order_id,
            owner: order.owner,
            market: self.market.id,
            side: order.side,
            order_type: order.order_type,
            price: match order.price {
                Some(p) => p,
                None => 0,
            },
            remaining: order.quantity,
            original: order.quantity,
            seq: self.next_seq,
            status: OrderStatus::Open,
        };
        assert(incoming == self@.incoming(order));
        match incoming.order_type {
            OrderType::Market => {},
            _ => {
                if incoming.price == 0 {
                    return Err(DexError::InvalidPrice);
                }
            },
        }
        if incoming.remaining == 0 {
            return Err(DexError::InvalidQuantity);
        }
        proof {
            lemma_fresh_id(self@);
        }
        Ok(incoming)
    }

    /// Initializes the market with its pair and returns the market's id.
    /// Fails, and changes nothing, if the market was initialized before or
    /// the signer is not authorized.
    pub fn initialize_market(&mut self, base_asset: u64, quote_asset: u64, authorized: bool) -> (r:
        Result<u64, DexError>)
        requires
            old(self).wf(),
        ensures
            final(self).wf(),
            final(self)@ == old(self)@.initialize_market(base_asset, quote_asset, authorized).0,
            r == old(self)@.initialize_market(base_asset, quote_asset, authorized).1,
    {
        match self.phase {
            Phase::Uninitialized => {},
            _ => {
                return Err(DexError::MarketAlreadyInitialized);
            },
        }
        if !authorized {
            return Err(DexError::Unauthorized);
        }
        self.market = Market { id: self.market.id, base_asset, quote_asset };
        self.phase = Phase::Active;
        Ok(self.market.id)
    }

    /// Places an order. The instruction is received and validated; the
    /// order is matched against the book in price-time priority; its owner
    /// reserves what the fills cost and what the resting remainder needs as
    /// escrow, and the fills are settled; then the instruction is
    /// finalized, and its id and fills are returned. All of this is one
    /// unit: on any failure the instruction is rejected, and the book, the
    /// balances and the counters are as they were before.
    pub fn place_order(&mut self, order: PlaceOrder, authorized: bool) -> (r: Result<
        (u64, Vec<Fill>),
        DexError,
    >)
        requires
            old(self).wf(),
        ensures
            final(self).wf(),
            final(self)@ == old(self)@.place_order(order, authorized).0,
            total(final(self)@.accounts, Asset::Base) == total(old(self)@.accounts, Asset::Base),
            total(final(self)@.accounts, Asset::Quote) == total(old(self)@.accounts, Asset::Quote),
            match old(self)@.place_order(order, authorized).1 {
                Ok(placed) => r matches Ok(pair) && pair.0 == placed.0 && pair.1@ == placed.1,
                Err(e) => r matches Err(x) && x == e,
            },
    {
        let mut tx = self.begin();
        let incoming = match self.validate(order, authorized) {
            Ok(incoming) => incoming,
            Err(e) => {
                self.rollback(tx);
                return Err(e);
            },
        };
        tx.advance();
        let (fills, remainder) = match match_order(incoming, &mut self.book) {
            Ok(pair) => pair,
            Err(e) => {
                self.rollback(tx);
                return Err(e);
            },
        };
        tx.advance();
        let need = match required_escrow(order.side, &fills, remainder) {
            Some(need) => need,
            None => {
                self.rollback(tx);
                return Err(DexError::ArithmeticOverflow);
            },
        };
        match self.ledger.reserve(order.owner, escrow_asset(order.side), need) {
            Ok(_) => {},
            Err(e) => {
                self.rollback(tx);
                return Err(DexError::from_settlement(e));
            },
        }
        match settle(&mut self.ledger, &fills) {
            Ok(_) => {},
            Err(e) => {
                self.rollback(tx);
                return Err(DexError::from_settlement(e));
            },
        }
        proof {
            lemma_place_order(old(self)@, order, authorized);
        }
        tx.advance();
        self.next_order_id = self.next_order_id + 1;
        self.next_seq = self.next_seq + 1;
        self.commit(tx);
        Ok((incoming.id, fills))
    }

    /// Cancels a resting order of the caller: releases its escrow and takes
    /// it out of the book. Returns the quantity that remained of it. Fails,
    /// and changes nothing, if the instruction does not pass the entry check, if no such
    /// order rests in the book (`OrderNotFound`: it never did, was filled,
    /// or was cancelled before), or if it belongs to another account.
    pub fn cancel_order(&mut self, cancel: CancelOrder, authorized: bool) -> (r: Result<
        u64,
        DexError,
    >)
        requires
            old(self).wf(),
        ensures
            final(self).wf(),
            final(self)@ == old(self)@.cancel_order(cancel, authorized).0,
            r == old(self)@.cancel_order(cancel, authorized).1,
            total(final(self)@.accounts, Asset::Base) == total(old(self)@.accounts, Asset::Base),
            total(final(self)@.accounts, Asset::Quote) == total(old(self)@.accounts, Asset::Quote),
    {
        match self.entry_check(cancel.market_id, authorized) {
            Err(e) => {
                return Err(e);
            },
            Ok(_) => {},
        }
        let o = match self.book.get(cancel.order_id) {
            None => {
                return Err(DexError::OrderNotFound);
            },
            Some(o) => o,
        };
        if o.owner != cancel.owner {
            return Err(DexError::Unauthorized);
        }
        let amount = match o.escrow_amount() {
            None => {
                return Err(DexError::ArithmeticOverflow);
            },
            Some(amount) => amount,
        };
        match self.ledger.release(o.owner, escrow_asset(o.side), amount) {
            Ok(_) => {},
            Err(e) => {
                return Err(DexError::from_settlement(e));
            },
        }
        proof {
            lemma_cancel_order(old(self)@, cancel, authorized);
        }
        self.book.cancel(cancel.order_id)
    }

    /// Closes the market for good. Fails, and changes nothing, if the
    /// instruction does not pass the entry check or the book still holds an order
    /// (`MarketNotEmpty`).
    pub fn close_market(&mut self, market_id: u64, authorized: bool) -> (r: Result<(), DexError>)
        requires
            old(self).wf(),
        ensures
            final(self).wf(),
            final(self)@ == old(self)@.close_market(market_id, authorized).0,
            r == old(self)@.close_market(market_id, authorized).1,
    {
        match self.entry_check(market_id, authorized) {
            Err(e) => {
                return Err(e);
            },
            Ok(_) => {},
        }
        if !self.book.is_empty() {
            return Err(DexError::MarketNotEmpty);
        }
        self.phase = Phase::Closed;
        Ok(())
    }

    /// Runs one instruction to its end. A finalized instruction returns
    /// its receipt; a rejected one returns its error and leaves the state
    /// exactly as it was. Either way the book is not crossed afterwards,
    /// and the ledger holds of each asset what it held before.
    pub fn process(&mut self, request: Request) -> (r: Result<Outcome, DexError>)
        requires
            old(self).wf(),
        ensures
            final(self).wf(),
            final(self)@ == old(self)@.step(request).0,
            r is Err ==> final(self)@ == old(self)@,
            total(final(self)@.accounts, Asset::Base) == total(old(self)@.accounts, Asset::Base),
            total(final(self)@.accounts, Asset::Quote) == total(old(self)@.accounts, Asset::Quote),
            match old(self)@.step(request).1 {
                Ok(receipt) => r matches Ok(outcome) && outcome@ == receipt,
                Err(e) => r matches Err(x) && x == e,
            },
    {
        match request.instruction {
            Instruction::InitializeMarket { base_asset, quote_asset } => {
                match self.initialize_market(base_asset, quote_asset, request.authorized) {
                    Ok(market_id) => Ok(Outcome::MarketInitialized { market_id }),
                    Err(e) => Err(e),
                }
            },
            Instruction::PlaceOrder(order) => {
                match self.place_order(order, request.authorized) {
                    Ok((order_id, fills)) => Ok(Outcome::OrderPlaced { order_id, fills }),
                    Err(e) => Err(e),
                }
            },
            Instruction::CancelOrder(cancel) => {
                match self.cancel_order(cancel, request.authorized) {
                    Ok(released_quantity) => Ok(Outcome::OrderCancelled { released_quantity }),
                    Err(e) => Err(e),
                }
            },
            Instruction::CloseMarket { market_id } => {
                match self.close_market(market_id, request.authorized) {
                    Ok(_) => Ok(Outcome::MarketClosed),
                    Err(e) => Err(e),
                }
            },
        }
    }

    /// Runs the instructions of `log` in order, each to its end, whether
    /// it is finalized or rejected. The state afterwards is a function of
    /// the state before and the log alone.
    pub fn replay(&mut self, log: &Vec<Request>)
        requires
            old(self).wf(),
        ensures
            final(self).wf(),
            final(self)@ == old(self)@.replay(log@),
            total(final(self)@.accounts, Asset::Base) == total(old(self)@.accounts, Asset::Base),
            total(final(self)@.accounts, Asset::Quote) == total(old(self)@.accounts, Asset::Quote),
    {
        let mut i: usize = 0;
        assert(log@.skip(0) =~= log@);
        while i < log.len()
            invariant
                i <= log.len(),
                self.wf(),
                old(self)@.replay(log@) == self@.replay(log@.skip(i as int)),
                total(self@.accounts, Asset::Base) == total(old(self)@.accounts, Asset::Base),
                total(self@.accounts, Asset::Quote) == total(old(self)@.accounts, Asset::Quote),
            decreases log.len() - i,
        {
            proof {
                let rest = log@.skip(i as int);
                assert(rest[0] == log@[i as int]);
                assert(rest.skip(1) =~= log@.skip(i + 1));
            }
            let _ = self.process(log[i]);
            i = i + 1;
        }
    }
}

} // verus!
