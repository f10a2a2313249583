//! The settlement engine: it moves the funds of a sequence of fills
//! between the parties' balances, all of them or none.

use crate::error::SettlementError;
use crate::ledger::{
    accounts_wf, available_total, lemma_transfer, reserved_total, total, transfer_spec,
    AccountBalances, Asset, Ledger,
};
use crate::order::Fill;
use vstd::prelude::*;

verus! {

/// What one settlement moved.
#[derive(Clone, Copy, Debug, PartialEq, Eq, Structural)]
pub struct SettlementSummary {
    /// The number of fills settled.
    pub fills: usize,
    /// The base units that went from sellers to buyers.
    pub base_volume: u128,
    /// The quote units that went from buyers to sellers.
    pub quote_volume: u128,
}

/// The base units that `fills` trade: the sum of their quantities.
pub open spec fn base_volume(fills: Seq<Fill>) -> int
    decreases fills.len(),
{
    if fills.len() == 0 {
        0
    } else {
        fills[0].quantity + base_volume(fills.skip(1))
    }
}

/// The quote units that `fills` trade: the sum of price times quantity.
pub open spec fn quote_volume(fills: Seq<Fill>) -> int
    decreases fills.len(),
{
    if fills.len() == 0 {
        0
    } else {
        fills[0].quote_amount() + quote_volume(fills.skip(1))
    }
}

/// The base units that `account` delivers in `fills`, as their seller.
pub open spec fn sold(fills: Seq<Fill>, account: usize) -> int
    decreases fills.len(),
{
    if fills.len() == 0 {
        0
    } else {
        (if fills[0].spec_seller() == account {
            fills[0].quantity as int
        } else {
            0
        }) + sold(fills.skip(1), account)
    }
}

/// The quote units that `account` pays in `fills`, as their buyer.
pub open spec fn spent(fills: Seq<Fill>, account: usize) -> int
    decreases fills.len(),
{
    if fills.len() == 0 {
        0
    } else {
        (if fills[0].spec_buyer() == account {
            fills[0].quote_amount()
        } else {
            0
        }) + spent(fills.skip(1), account)
    }
}

/// The summary of settling `fills`.
pub open spec fn summary_of(fills: Seq<Fill>) -> SettlementSummary {
    SettlementSummary {
        fills: fills.len() as usize,
        base_volume: base_volume(fills) as u128,
        quote_volume: quote_volume(fills) as u128,
    }
}

/// Settling one fill: the quantity goes from what the seller has reserved
/// of the base asset to what the buyer has available of it, then price
/// times quantity goes from what the buyer has reserved of the quote asset
/// to what the seller has available of it. The quote amount is the exact
/// product; nothing is rounded.
pub open spec fn apply_fill(s: Seq<AccountBalances>, f: Fill) -> Result<
    Seq<AccountBalances>,
    SettlementError,
> {
    if f.quote_amount() > u64::MAX {
        Err(SettlementError::ArithmeticOverflow)
    } else {
        match transfer_spec(s, f.spec_seller(), f.spec_buyer(), Asset::Base, f.quantity) {
            Err(e) => Err(e),
            Ok(based) => transfer_spec(
                based,
                f.spec_buyer(),
                f.spec_seller(),
                Asset::Quote,
                f.quote_amount() as u64,
            ),
        }
    }
}

/// Settling `fills` one after the other; the first failure is the failure
/// of the whole.
pub open spec fn settle_spec(s: Seq<AccountBalances>, fills: Seq<Fill>) -> Result<
    Seq<AccountBalances>,
    SettlementError,
>
    decreases fills.len(),
{
    if fills.len() == 0 {
        Ok(s)
    } else {
        match apply_fill(s, fills[0]) {
            Err(e) => Err(e),
            Ok(next) => settle_spec(next, fills.skip(1)),
        }
    }
}

/// No volume is negative.
pub proof fn lemma_volume_nonneg(fills: Seq<Fill>)
    ensures
        base_volume(fills) >= 0,
        quote_volume(fills) >= 0,
    decreases fills.len(),
{
    if fills.len() > 0 {
        lemma_volume_nonneg(fills.skip(1));
        assert(fills[0].price * fills[0].quantity >= 0) by (nonlinear_arith);
    }
}

/// Settling one fill keeps the ledger well formed; the fill's quantity
/// leaves the reserved base balances and arrives in the available ones, and
/// its quote amount does the same among the quote balances.
pub proof fn lemma_apply_fill(s: Seq<AccountBalances>, f: Fill)
    requires
        accounts_wf(s),
        apply_fill(s, f) is Ok,
    ensures
        accounts_wf(apply_fill(s, f)->Ok_0),
        apply_fill(s, f)->Ok_0.len() == s.len(),
        reserved_total(apply_fill(s, f)->Ok_0, Asset::Base) == reserved_total(s, Asset::Base)
            - f.quantity,
        available_total(apply_fill(s, f)->Ok_0, Asset::Base) == available_total(s, Asset::Base)
            + f.quantity,
        reserved_total(apply_fill(s, f)->Ok_0, Asset::Quote) == reserved_total(s, Asset::Quote)
            - f.quote_amount(),
        available_total(apply_fill(s, f)->Ok_0, Asset::Quote) == available_total(s, Asset::Quote)
            + f.quote_amount(),
{
    let based = transfer_spec(s, f.spec_seller(), f.spec_buyer(), Asset::Base, f.quantity)->Ok_0;
    lemma_transfer(s, f.spec_seller(), f.spec_buyer(), Asset::Base, f.quantity, Asset::Base);
    lemma_transfer(s, f.spec_seller(), f.spec_buyer(), Asset::Base, f.quantity, Asset::Quote);
    let amount = f.quote_amount() as u64;
    lemma_transfer(based, f.spec_buyer(), f.spec_seller(), Asset::Quote, amount, Asset::Base);
    lemma_transfer(based, f.spec_buyer(), f.spec_seller(), Asset::Quote, amount, Asset::Quote);
}

/// A settlement takes from what an account has reserved exactly what the
/// account delivers as a seller and pays as a buyer, and touches no other
/// reserved amount.
pub proof fn lemma_settle_reserved(s: Seq<AccountBalances>, fills: Seq<Fill>, account: usize)
    requires
        settle_spec(s, fills) is Ok,
        account < s.len(),
    ensures
        settle_spec(s, fills)->Ok_0.len() == s.len(),
        settle_spec(s, fills)->Ok_0[account as int].base.reserved == s[account as int].base.reserved
            - sold(fills, account),
        settle_spec(s, fills)->Ok_0[account as int].quote.reserved
            == s[account as int].quote.reserved - spent(fills, account),
    decreases fills.len(),
{
    if fills.len() > 0 {
        let f = fills[0];
        let based = transfer_spec(
            s,
            f.spec_seller(),
            f.spec_buyer(),
            Asset::Base,
            f.quantity,
        )->Ok_0;
        let next = apply_fill(s, f)->Ok_0;
        assert(based.len() == s.len());
        assert(next.len() == s.len());
        assert(based[account as int].quote == s[account as int].quote);
        assert(next[account as int].base == based[account as int].base);
        lemma_settle_reserved(next, fills.skip(1), account);
    }
}

/// What an account delivers and pays in fills is never negative.
pub proof fn lemma_sold_spent_nonneg(fills: Seq<Fill>, account: usize)
    ensures
        sold(fills, account) >= 0,
        spent(fills, account) >= 0,
    decreases fills.len(),
{
    if fills.len() > 0 {
        lemma_sold_spent_nonneg(fills.skip(1), account);
        assert(fills[0].price * fills[0].quantity >= 0) by (nonlinear_arith);
    }
}

/// The reserved balances cover `fills`: every party is an account of the
/// ledger, and every account has reserved at least the base units that it
/// delivers and the quote units that it pays.
pub open spec fn covered(s: Seq<AccountBalances>, fills: Seq<Fill>) -> bool {
    &&& forall|k: int|
        0 <= k < fills.len() ==> (#[trigger] fills[k]).spec_buyer() < s.len()
            && fills[k].spec_seller() < s.len()
    &&& forall|a: usize|
        a < s.len() ==> sold(fills, a) <= (#[trigger] s[a as int]).base.reserved && spent(fills, a)
            <= s[a as int].quote.reserved
}

/// A settlement that the reserved balances cover never fails for want of
/// funds or of an account: it succeeds unless a receiver's holdings would
/// leave the range of `u64`.
pub proof fn lemma_settle_covered(s: Seq<AccountBalances>, fills: Seq<Fill>)
    requires
        covered(s, fills),
    ensures
        settle_spec(s, fills) is Ok || settle_spec(s, fills) == Err::<
            Seq<AccountBalances>,
            SettlementError,
        >(SettlementError::ArithmeticOverflow),
    decreases fills.len(),
{
    if fills.len() > 0 {
        let f = fills[0];
        let rest = fills.skip(1);
        let seller = f.spec_seller();
        let buyer = f.spec_buyer();
        lemma_sold_spent_nonneg(rest, seller);
        lemma_sold_spent_nonneg(rest, buyer);
        assert(s[seller as int].base.reserved >= sold(fills, seller));
        assert(s[buyer as int].quote.reserved >= spent(fills, buyer));
        assert(f.quote_amount() <= u64::MAX);
        let based = transfer_spec(s, seller, buyer, Asset::Base, f.quantity);
        if based is Ok {
            assert(based->Ok_0[buyer as int].quote == s[buyer as int].quote);
            let next = apply_fill(s, f);
            if next is Ok {
                let n = next->Ok_0;
                assert(n.len() == s.len());
                assert forall|k: int| 0 <= k < rest.len() implies (#[trigger] rest[k]).spec_buyer()
                    < n.len() && rest[k].spec_seller() < n.len() by {
                    assert(rest[k] == fills[k + 1]);
                }
                assert forall|a: usize| a < n.len() implies sold(rest, a) <= (
                #[trigger] n[a as int]).base.reserved && spent(rest, a)
                    <= n[a as int].quote.reserved by {
                    assert(sold(fills, a) <= s[a as int].base.reserved);
                    assert(based->Ok_0[a as int].quote == s[a as int].quote);
                    assert(n[a as int].base == based->Ok_0[a as int].base);
                }
                lemma_settle_covered(n, rest);
            }
        }
    }
}

/// Conservation: a settlement keeps the ledger well formed, and of each
/// asset exactly the traded volume leaves the reserved balances of those
/// who pay and arrives in the available balances of those who receive. So
/// the sum of all holdings of each asset stays what it was.
pub proof fn lemma_settle_conserves(s: Seq<AccountBalances>, fills: Seq<Fill>)
    requires
        accounts_wf(s),
        settle_spec(s, fills) is Ok,
    ensures
        accounts_wf(settle_spec(s, fills)->Ok_0),
        settle_spec(s, fills)->Ok_0.len() == s.len(),
        reserved_total(settle_spec(s, fills)->Ok_0, Asset::Base) == reserved_total(s, Asset::Base)
            - base_volume(fills),
        available_total(settle_spec(s, fills)->Ok_0, Asset::Base) == available_total(
            s,
            Asset::Base,
        ) + base_volume(fills),
        reserved_total(settle_spec(s, fills)->Ok_0, Asset::Quote) == reserved_total(
            s,
            Asset::Quote,
        ) - quote_volume(fills),
        available_total(settle_spec(s, fills)->Ok_0, Asset::Quote) == available_total(
            s,
            Asset::Quote,
        ) + quote_volume(fills),
        total(settle_spec(s, fills)->Ok_0, Asset::Base) == total(s, Asset::Base),
        total(settle_spec(s, fills)->Ok_0, Asset::Quote) == total(s, Asset::Quote),
    decreases fills.len(),
{
    if fills.len() > 0 {
        lemma_apply_fill(s, fills[0]);
        lemma_settle_conserves(apply_fill(s, fills[0])->Ok_0, fills.skip(1));
    }
}

/// Settles `fills` in order. For each fill the quantity moves from the
/// seller's reserved base balance to the buyer's available base balance,
/// and price times quantity from the buyer's reserved quote balance to the
/// seller's available quote balance. The whole is one unit: if any movement
/// fails, the ledger is left exactly as it was and the first failure is
/// returned. A settlement creates and destroys nothing.
pub fn settle(ledger: &mut Ledger, fills: &Vec<Fill>) -> (r: Result<
    SettlementSummary,
    SettlementError,
>)
    requires
        old(ledger).wf(),
    ensures
        final(ledger).wf(),
        final(ledger)@.len() == old(ledger)@.len(),
        total(final(ledger)@, Asset::Base) == total(old(ledger)@, Asset::Base),
        total(final(ledger)@, Asset::Quote) == total(old(ledger)@, Asset::Quote),
        match settle_spec(old(ledger)@, fills@) {
            Ok(s) => final(ledger)@ == s && r == Ok::<SettlementSummary, SettlementError>(
                summary_of(fills@),
            ),
            Err(e) => final(ledger)@ == old(ledger)@ && r == Err::<
                SettlementSummary,
                SettlementError,
            >(e),
        },
{
    let saved = ledger.snapshot();
    let mut base: u128 = 0;
    let mut quote: u128 = 0;
    let mut i: usize = 0;
    assert(fills@.skip(0) =~= fills@);
    while i < fills.len()
        invariant
            i <= fills.len(),
            ledger.wf(),
            saved@ == old(ledger)@,
            accounts_wf(old(ledger)@),
            settle_spec(old(ledger)@, fills@) == settle_spec(ledger@, fills@.skip(i as int)),
            base + base_volume(fills@.skip(i as int)) == base_volume(fills@),
            quote + quote_volume(fills@.skip(i as int)) == quote_volume(fills@),
            base <= i * u64::MAX,
            quote <= i * u64::MAX,
        decreases fills.len() - i,
    {
        let f = fills[i];
        let ghost rest = fills@.skip(i as int);
        assert(rest[0] == f);
        assert(rest.skip(1) =~= fills@.skip(i + 1));
        let amount = match f.price.checked_mul(f.quantity) {
            Some(amount) => amount,
            None => {
                *ledger = saved;
                return Err(SettlementError::ArithmeticOverflow);
            },
        };
        match ledger.transfer(f.seller(), f.buyer(), Asset::Base, f.quantity) {
            Ok(_) => {},
            Err(e) => {
                *ledger = saved;
                return Err(e);
            },
        }
        match ledger.transfer(f.buyer(), f.seller(), Asset::Quote, amount) {
            Ok(_) => {},
            Err(e) => {
                *ledger = saved;
                return Err(e);
            },
        }
        base = base + f.quantity as u128;
        quote = quote + amount as u128;
        i = i + 1;
    }
    proof {
        lemma_settle_conserves(old(ledger)@, fills@);
    }
    Ok(SettlementSummary { fills: fills.len(), base_volume: base, quote_volume: quote })
}

} // verus!
