//! The ledger of one market's vaults: per account and asset an available
//! and a reserved balance, moved only by overflow-checked operations that
//! either succeed or change nothing.

use crate::error::SettlementError;
use vstd::prelude::*;

verus! {

/// One of the two assets of a market's pair.
#[derive(Clone, Copy, Debug, PartialEq, Eq, Structural)]
pub enum Asset {
    /// The asset that is bought and sold.
    Base,
    /// The asset in which prices are given.
    Quote,
}

/// What a market's vault holds of one asset for one account.
#[derive(Clone, Copy, Debug, PartialEq, Eq, Structural)]
pub struct VaultBalance {
    /// Free to be withdrawn or reserved.
    pub available: u64,
    /// Set aside for open orders.
    pub reserved: u64,
}

/// The two balances of one account.
#[derive(Clone, Copy, Debug, PartialEq, Eq, Structural)]
pub struct AccountBalances {
    pub base: VaultBalance,
    pub quote: VaultBalance,
}

impl VaultBalance {
    /// The amount in custody: available plus reserved.
    pub open spec fn total(self) -> int {
        self.available + self.reserved
    }

    /// The amount in custody fits the balance's own integer type.
    pub open spec fn wf(self) -> bool {
        self.total() <= u64::MAX
    }
}

impl AccountBalances {
    /// The balance of `asset`.
    pub open spec fn spec_get(self, asset: Asset) -> VaultBalance {
        match asset {
            Asset::Base => self.base,
            Asset::Quote => self.quote,
        }
    }

    /// The balance of `asset`.
    #[verifier::when_used_as_spec(spec_get)]
    pub fn get(self, asset: Asset) -> (b: VaultBalance)
        ensures
            b == self.spec_get(asset),
    {
        match asset {
            Asset::Base => self.base,
            Asset::Quote => self.quote,
        }
    }

    /// These balances with that of `asset` replaced by `balance`.
    pub open spec fn spec_with(self, asset: Asset, balance: VaultBalance) -> AccountBalances {
        match asset {
            Asset::Base => AccountBalances { base: balance, ..self },
            Asset::Quote => AccountBalances { quote: balance, ..self },
        }
    }

    /// These balances with that of `asset` replaced by `balance`.
    #[verifier::when_used_as_spec(spec_with)]
    pub fn with(self, asset: Asset, balance: VaultBalance) -> (r: AccountBalances)
        ensures
            r == self.spec_with(asset, balance),
    {
        match asset {
            Asset::Base => AccountBalances { base: balance, ..self },
            Asset::Quote => AccountBalances { quote: balance, ..self },
        }
    }

    /// Both balances are well formed.
    pub open spec fn wf(self) -> bool {
        self.base.wf() && self.quote.wf()
    }

    /// An account that holds nothing.
    pub open spec fn empty() -> AccountBalances {
        AccountBalances {
            base: VaultBalance { available: 0, reserved: 0 },
            quote: VaultBalance { available: 0, reserved: 0 },
        }
    }
}

/// Every record of the ledger is well formed.
pub open spec fn accounts_wf(s: Seq<AccountBalances>) -> bool {
    forall|i: int| 0 <= i < s.len() ==> (#[trigger] s[i]).wf()
}

/// All that the accounts have available of `asset`.
pub open spec fn available_total(s: Seq<AccountBalances>, asset: Asset) -> int
    decreases s.len(),
{
    if s.len() == 0 {
        0
    } else {
        available_total(s.drop_last(), asset) + s.last().spec_get(asset).available
    }
}

/// All that the accounts have reserved of `asset`.
pub open spec fn reserved_total(s: Seq<AccountBalances>, asset: Asset) -> int
    decreases s.len(),
{
    if s.len() == 0 {
        0
    } else {
        reserved_total(s.drop_last(), asset) + s.last().spec_get(asset).reserved
    }
}

/// All that the ledger holds of `asset`, over all accounts, available and
/// reserved.
pub open spec fn total(s: Seq<AccountBalances>, asset: Asset) -> int {
    available_total(s, asset) + reserved_total(s, asset)
}

/// The ledger in which the balance that `account` has of `asset` is `balance`.
pub open spec fn with_balance(
    s: Seq<AccountBalances>,
    account: usize,
    asset: Asset,
    balance: VaultBalance,
) -> Seq<AccountBalances> {
    s.update(account as int, s[account as int].spec_with(asset, balance))
}

/// A deposit: `amount` is added to what `account` has available of `asset`.
pub open spec fn credit_spec(
    s: Seq<AccountBalances>,
    account: usize,
    asset: Asset,
    amount: u64,
) -> Result<Seq<AccountBalances>, SettlementError> {
    if account >= s.len() {
        Err(SettlementError::UnknownAccount)
    } else {
        let b = s[account as int].spec_get(asset);
        if b.total() + amount > u64::MAX {
            Err(SettlementError::ArithmeticOverflow)
        } else {
            Ok(
                with_balance(
                    s,
                    account,
                    asset,
                    VaultBalance { available: (b.available + amount) as u64, reserved: b.reserved },
                ),
            )
        }
    }
}

/// A withdrawal: `amount` is taken from what `account` has available of
/// `asset`.
pub open spec fn debit_spec(
    s: Seq<AccountBalances>,
    account: usize,
    asset: Asset,
    amount: u64,
) -> Result<Seq<AccountBalances>, SettlementError> {
    if account >= s.len() {
        Err(SettlementError::UnknownAccount)
    } else {
        let b = s[account as int].spec_get(asset);
        if b.available < amount {
            Err(SettlementError::InsufficientFunds)
        } else {
            Ok(
                with_balance(
                    s,
                    account,
                    asset,
                    VaultBalance { available: (b.available - amount) as u64, reserved: b.reserved },
                ),
            )
        }
    }
}

/// `amount` moves from available to reserved within one balance.
pub open spec fn reserve_spec(
    s: Seq<AccountBalances>,
    account: usize,
    asset: Asset,
    amount: u64,
) -> Result<Seq<AccountBalances>, SettlementError> {
    if account >= s.len() {
        Err(SettlementError::UnknownAccount)
    } else {
        let b = s[account as int].spec_get(asset);
        if b.available < amount {
            Err(SettlementError::InsufficientFunds)
        } else {
            Ok(
                with_balance(
                    s,
                    account,
                    asset,
                    VaultBalance {
                        available: (b.available - amount) as u64,
                        reserved: (b.reserved + amount) as u64,
                    },
                ),
            )
        }
    }
}

/// `amount` moves from reserved back to available within one balance.
pub open spec fn release_spec(
    s: Seq<AccountBalances>,
    account: usize,
    asset: Asset,
    amount: u64,
) -> Result<Seq<AccountBalances>, SettlementError> {
    if account >= s.len() {
        Err(SettlementError::UnknownAccount)
    } else {
        let b = s[account as int].spec_get(asset);
        if b.reserved < amount {
            Err(SettlementError::InsufficientFunds)
        } else {
            Ok(
                with_balance(
                    s,
                    account,
                    asset,
                    VaultBalance {
                        available: (b.available + amount) as u64,
                        reserved: (b.reserved - amount) as u64,
                    },
                ),
            )
        }
    }
}

/// `amount` of `asset` leaves what `from` has reserved and arrives in what
/// `to` has available. The paying side is looked at first.
pub open spec fn transfer_spec(
    s: Seq<AccountBalances>,
    from: usize,
    to: usize,
    asset: Asset,
    amount: u64,
) -> Result<Seq<AccountBalances>, SettlementError> {
    if from >= s.len() || to >= s.len() {
        Err(SettlementError::UnknownAccount)
    } else {
        let src = s[from as int].spec_get(asset);
        if src.reserved < amount {
            Err(SettlementError::InsufficientFunds)
        } else {
            let paid = with_balance(
                s,
                from,
                asset,
                VaultBalance { available: src.available, reserved: (src.reserved - amount) as u64 },
            );
            let dst = paid[to as int].spec_get(asset);
            if dst.total() + amount > u64::MAX {
                Err(SettlementError::ArithmeticOverflow)
            } else {
                Ok(
                    with_balance(
                        paid,
                        to,
                        asset,
                        VaultBalance {
                            available: (dst.available + amount) as u64,
                            reserved: dst.reserved,
                        },
                    ),
                )
            }
        }
    }
}

/// Replacing one record changes each sum by the difference between the
/// new record and the old one.
pub proof fn lemma_totals_update(s: Seq<AccountBalances>, i: int, r: AccountBalances, asset: Asset)
    requires
        0 <= i < s.len(),
    ensures
        available_total(s.update(i, r), asset) == available_total(s, asset) - s[i].spec_get(
            asset,
        ).available + r.spec_get(asset).available,
        reserved_total(s.update(i, r), asset) == reserved_total(s, asset) - s[i].spec_get(
            asset,
        ).reserved + r.spec_get(asset).reserved,
    decreases s.len(),
{
    let t = s.update(i, r);
    if i == s.len() - 1 {
        assert(t.drop_last() =~= s.drop_last());
    } else {
        assert(t.drop_last() =~= s.drop_last().update(i, r));
        lemma_totals_update(s.drop_last(), i, r, asset);
    }
}

/// A new record adds what it holds to each sum.
pub proof fn lemma_totals_push(s: Seq<AccountBalances>, r: AccountBalances, asset: Asset)
    ensures
        available_total(s.push(r), asset) == available_total(s, asset) + r.spec_get(
            asset,
        ).available,
        reserved_total(s.push(r), asset) == reserved_total(s, asset) + r.spec_get(asset).reserved,
{
    assert(s.push(r).drop_last() =~= s);
}

/// Replacing one balance changes the sums of its asset by the difference
/// between the new balance and the old one, and leaves the sums of the
/// other asset alone.
pub proof fn lemma_totals_with_balance(
    s: Seq<AccountBalances>,
    account: usize,
    asset: Asset,
    balance: VaultBalance,
    of: Asset,
)
    requires
        account < s.len(),
    ensures
        available_total(with_balance(s, account, asset, balance), of) == available_total(s, of)
            + if of == asset {
            balance.available - s[account as int].spec_get(asset).available
        } else {
            0
        },
        reserved_total(with_balance(s, account, asset, balance), of) == reserved_total(s, of)
            + if of == asset {
            balance.reserved - s[account as int].spec_get(asset).reserved
        } else {
            0
        },
{
    lemma_totals_update(s, account as int, s[account as int].spec_with(asset, balance), of);
}

/// A deposit keeps the ledger well formed and adds its amount to what is
/// available of its asset, and to nothing else.
pub proof fn lemma_credit(
    s: Seq<AccountBalances>,
    account: usize,
    asset: Asset,
    amount: u64,
    of: Asset,
)
    requires
        accounts_wf(s),
        credit_spec(s, account, asset, amount) is Ok,
    ensures
        accounts_wf(credit_spec(s, account, asset, amount)->Ok_0),
        credit_spec(s, account, asset, amount)->Ok_0.len() == s.len(),
        available_total(credit_spec(s, account, asset, amount)->Ok_0, of) == available_total(s, of)
            + if of == asset {
            amount as int
        } else {
            0
        },
        reserved_total(credit_spec(s, account, asset, amount)->Ok_0, of) == reserved_total(s, of),
{
    let b = s[account as int].spec_get(asset);
    let nb = VaultBalance { available: (b.available + amount) as u64, reserved: b.reserved };
    lemma_totals_with_balance(s, account, asset, nb, of);
}

/// A withdrawal keeps the ledger well formed and takes its amount from what
/// is available of its asset, and from nothing else.
pub proof fn lemma_debit(
    s: Seq<AccountBalances>,
    account: usize,
    asset: Asset,
    amount: u64,
    of: Asset,
)
    requires
        accounts_wf(s),
        debit_spec(s, account, asset, amount) is Ok,
    ensures
        accounts_wf(debit_spec(s, account, asset, amount)->Ok_0),
        debit_spec(s, account, asset, amount)->Ok_0.len() == s.len(),
        available_total(debit_spec(s, account, asset, amount)->Ok_0, of) == available_total(s, of)
            - if of == asset {
            amount as int
        } else {
            0
        },
        reserved_total(debit_spec(s, account, asset, amount)->Ok_0, of) == reserved_total(s, of),
{
    let b = s[account as int].spec_get(asset);
    let nb = VaultBalance { available: (b.available - amount) as u64, reserved: b.reserved };
    lemma_totals_with_balance(s, account, asset, nb, of);
}

/// Reserving keeps the ledger well formed and moves its amount from what is
/// available of its asset to what is reserved of it.
pub proof fn lemma_reserve(
    s: Seq<AccountBalances>,
    account: usize,
    asset: Asset,
    amount: u64,
    of: Asset,
)
    requires
        accounts_wf(s),
        reserve_spec(s, account, asset, amount) is Ok,
    ensures
        accounts_wf(reserve_spec(s, account, asset, amount)->Ok_0),
        reserve_spec(s, account, asset, amount)->Ok_0.len() == s.len(),
        available_total(reserve_spec(s, account, asset, amount)->Ok_0, of) == available_total(
            s,
            of,
        ) - if of == asset {
            amount as int
        } else {
            0
        },
        reserved_total(reserve_spec(s, account, asset, amount)->Ok_0, of) == reserved_total(s, of)
            + if of == asset {
            amount as int
        } else {
            0
        },
{
    let b = s[account as int].spec_get(asset);
    assert(s[account as int].wf());
    let nb = VaultBalance {
        available: (b.available - amount) as u64,
        reserved: (b.reserved + amount) as u64,
    };
    lemma_totals_with_balance(s, account, asset, nb, of);
}

/// Releasing keeps the ledger well formed and moves its amount from what is
/// reserved of its asset to what is available of it.
pub proof fn lemma_release(
    s: Seq<AccountBalances>,
    account: usize,
    asset: Asset,
    amount: u64,
    of: Asset,
)
    requires
        accounts_wf(s),
        release_spec(s, account, asset, amount) is Ok,
    ensures
        accounts_wf(release_spec(s, account, asset, amount)->Ok_0),
        release_spec(s, account, asset, amount)->Ok_0.len() == s.len(),
        available_total(release_spec(s, account, asset, amount)->Ok_0, of) == available_total(
            s,
            of,
        ) + if of == asset {
            amount as int
        } else {
            0
        },
        reserved_total(release_spec(s, account, asset, amount)->Ok_0, of) == reserved_total(s, of)
            - if of == asset {
            amount as int
        } else {
            0
        },
{
    let b = s[account as int].spec_get(asset);
    assert(s[account as int].wf());
    let nb = VaultBalance {
        available: (b.available + amount) as u64,
        reserved: (b.reserved - amount) as u64,
    };
    lemma_totals_with_balance(s, account, asset, nb, of);
}

/// A transfer creates and destroys nothing: it keeps the ledger well
/// formed, and what leaves the reserved balances of its asset is what
/// arrives in the available ones.
pub proof fn lemma_transfer(
    s: Seq<AccountBalances>,
    from: usize,
    to: usize,
    asset: Asset,
    amount: u64,
    of: Asset,
)
    requires
        accounts_wf(s),
        transfer_spec(s, from, to, asset, amount) is Ok,
    ensures
        accounts_wf(transfer_spec(s, from, to, asset, amount)->Ok_0),
        transfer_spec(s, from, to, asset, amount)->Ok_0.len() == s.len(),
        available_total(transfer_spec(s, from, to, asset, amount)->Ok_0, of) == available_total(
            s,
            of,
        ) + if of == asset {
            amount as int
        } else {
            0
        },
        reserved_total(transfer_spec(s, from, to, asset, amount)->Ok_0, of) == reserved_total(
            s,
            of,
        ) - if of == asset {
            amount as int
        } else {
            0
        },
{
    let src = s[from as int].spec_get(asset);
    assert(s[from as int].wf());
    assert(s[to as int].wf());
    let nsrc = VaultBalance { available: src.available, reserved: (src.reserved - amount) as u64 };
    let paid = with_balance(s, from, asset, nsrc);
    lemma_totals_with_balance(s, from, asset, nsrc, of);
    let dst = paid[to as int].spec_get(asset);
    let ndst = VaultBalance { available: (dst.available + amount) as u64, reserved: dst.reserved };
    lemma_totals_with_balance(paid, to, asset, ndst, of);
}

/// The balance records of one market's vaults, one record per account. An
/// account is known by the index of its record.
pub struct Ledger {
    accounts: Vec<AccountBalances>,
}

impl View for Ledger {
    type V = Seq<AccountBalances>;

    closed spec fn view(&self) -> Seq<AccountBalances> {
        self.accounts@
    }
}

impl Ledger {
    /// Every balance is well formed.
    pub open spec fn wf(&self) -> bool {
        accounts_wf(self@)
    }

    /// A ledger without accounts.
    pub fn new() -> (l: Ledger)
        ensures
            l@ == Seq::<AccountBalances>::empty(),
            l.wf(),
    {
        Ledger { accounts: Vec::new() }
    }

    /// The ledger with the given records, as they were stored. None if a
    /// record is not well formed: if what it holds of an asset, available
    /// and reserved together, leaves the range of `u64`.
    pub fn from_accounts(accounts: Vec<AccountBalances>) -> (r: Option<Ledger>)
        ensures
            match r {
                Some(ledger) => ledger.wf() && ledger@ == accounts@,
                None => !accounts_wf(accounts@),
            },
    {
        let mut i: usize = 0;
        while i < accounts.len()
            invariant
                i <= accounts.len(),
                forall|k: int| 0 <= k < i ==> (#[trigger] accounts@[k]).wf(),
            decreases accounts.len() - i,
        {
            let record = accounts[i];
            let base = record.base.available.checked_add(record.base.reserved);
            let quote = record.quote.available.checked_add(record.quote.reserved);
            if base.is_none() || quote.is_none() {
                assert(!accounts@[i as int].wf());
                return None;
            }
            i = i + 1;
        }
        Some(Ledger { accounts })
    }

    /// The number of accounts.
    pub fn len(&self) -> (n: usize)
        ensures
            n == self@.len(),
    {
        self.accounts.len()
    }

    /// Adds an account that holds nothing, and returns its reference.
    pub fn open_account(&mut self) -> (account: usize)
        requires
            old(self).wf(),
        ensures
            final(self).wf(),
            account == old(self)@.len(),
            final(self)@ == old(self)@.push(AccountBalances::empty()),
    {
        let account = self.accounts.len();
        self.accounts.push(
            AccountBalances {
                base: VaultBalance { available: 0, reserved: 0 },
                quote: VaultBalance { available: 0, reserved: 0 },
            },
        );
        account
    }

    /// The balances of `account`, if the ledger has such an account.
    pub fn balances(&self, account: usize) -> (r: Option<AccountBalances>)
        ensures
            r == if account < self@.len() {
                Some(self@[account as int])
            } else {
                None
            },
    {
        if account < self.accounts.len() {
            Some(self.accounts[account])
        } else {
            None
        }
    }

    /// A copy of the ledger, record by record.
    pub fn snapshot(&self) -> (l: Ledger)
        ensures
            l@ == self@,
    {
        let mut accounts: Vec<AccountBalances> = Vec::new();
        let mut i: usize = 0;
        while i < self.accounts.len()
            invariant
                i <= self.accounts.len(),
                accounts@ == self.accounts@.take(i as int),
            decreases self.accounts.len() - i,
        {
            accounts.push(self.accounts[i]);
            i = i + 1;
        }
        assert(self.accounts@.take(i as int) =~= self.accounts@);
        Ledger { accounts }
    }

    /// Deposits `amount` of `asset` for `account`. Fails, and changes
    /// nothing, on an unknown account or where the account's holdings would
    /// leave the range of `u64`.
    pub fn credit(&mut self, account: usize, asset: Asset, amount: u64) -> (r: Result<
        (),
        SettlementError,
    >)
        requires
            old(self).wf(),
        ensures
            final(self).wf(),
            match credit_spec(old(self)@, account, asset, amount) {
                Ok(s) => r is Ok && final(self)@ == s,
                Err(e) => r == Err::<(), SettlementError>(e) && final(self)@ == old(self)@,
            },
    {
        if account >= self.accounts.len() {
            return Err(SettlementError::UnknownAccount);
        }
        let record = self.accounts[account];
        let b = record.get(asset);
        assert(self@[account as int].wf());
        let held: u64 = b.available + b.reserved;
        match held.checked_add(amount) {
            None => Err(SettlementError::ArithmeticOverflow),
            Some(_) => {
                proof {
                    lemma_credit(self@, account, asset, amount, asset);
                }
                self.accounts.set(
                    account,
                    record.with(
                        asset,
                        VaultBalance { available: b.available + amount, reserved: b.reserved },
                    ),
                );
                Ok(())
            },
        }
    }

    /// Withdraws `amount` of `asset` from what `account` has available.
    /// Fails, and changes nothing, on an unknown account or where less is
    /// available.
    pub fn debit(&mut self, account: usize, asset: Asset, amount: u64) -> (r: Result<
        (),
        SettlementError,
    >)
        requires
            old(self).wf(),
        ensures
            final(self).wf(),
            match debit_spec(old(self)@, account, asset, amount) {
                Ok(s) => r is Ok && final(self)@ == s,
                Err(e) => r == Err::<(), SettlementError>(e) && final(self)@ == old(self)@,
            },
    {
        if account >= self.accounts.len() {
            return Err(SettlementError::UnknownAccount);
        }
        let record = self.accounts[account];
        let b = record.get(asset);
        if b.available < amount {
            return Err(SettlementError::InsufficientFunds);
        }
        proof {
            lemma_debit(self@, account, asset, amount, asset);
        }
        self.accounts.set(
            account,
            record.with(
                asset,
                VaultBalance { available: b.available - amount, reserved: b.reserved },
            ),
        );
        Ok(())
    }

    /// Sets `amount` of what `account` has available of `asset` aside for
    /// an order. Fails, and changes nothing, on an unknown account or where
    /// less is available.
    pub fn reserve(&mut self, account: usize, asset: Asset, amount: u64) -> (r: Result<
        (),
        SettlementError,
    >)
        requires
            old(self).wf(),
        ensures
            final(self).wf(),
            match reserve_spec(old(self)@, account, asset, amount) {
                Ok(s) => r is Ok && final(self)@ == s,
                Err(e) => r == Err::<(), SettlementError>(e) && final(self)@ == old(self)@,
            },
    {
        if account >= self.accounts.len() {
            return Err(SettlementError::UnknownAccount);
        }
        let record = self.accounts[account];
        let b = record.get(asset);
        if b.available < amount {
            return Err(SettlementError::InsufficientFunds);
        }
        proof {
            lemma_reserve(self@, account, asset, amount, asset);
        }
        assert(self@[account as int].wf());
        self.accounts.set(
            account,
            record.with(
                asset,
                VaultBalance {
                    available: b.available - amount,
                    reserved: b.reserved + amount,
                },
            ),
        );
        Ok(())
    }

    /// Gives `amount` of what `account` has reserved of `asset` back to
    /// what it has available. Fails, and changes nothing, on an unknown
    /// account or where less is reserved.
    pub fn release(&mut self, account: usize, asset: Asset, amount: u64) -> (r: Result<
        (),
        SettlementError,
    >)
        requires
            old(self).wf(),
        ensures
            final(self).wf(),
            match release_spec(old(self)@, account, asset, amount) {
                Ok(s) => r is Ok && final(self)@ == s,
                Err(e) => r == Err::<(), SettlementError>(e) && final(self)@ == old(self)@,
            },
    {
        if account >= self.accounts.len() {
            return Err(SettlementError::UnknownAccount);
        }
        let record = self.accounts[account];
        let b = record.get(asset);
        if b.reserved < amount {
            return Err(SettlementError::InsufficientFunds);
        }
        proof {
            lemma_release(self@, account, asset, amount, asset);
        }
        assert(self@[account as int].wf());
        self.accounts.set(
            account,
            record.with(
                asset,
                VaultBalance {
                    available: b.available + amount,
                    reserved: b.reserved - amount,
                },
            ),
        );
        Ok(())
    }

    /// Moves `amount` of `asset` from what `from` has reserved to what `to`
    /// has available. Fails, and changes nothing, on an unknown account,
    /// where `from` has less reserved, or where the holdings of `to` would
    /// leave the range of `u64`.
    pub fn transfer(&mut self, from: usize, to: usize, asset: Asset, amount: u64) -> (r: Result<
        (),
        SettlementError,
    >)
        requires
            old(self).wf(),
        ensures
            final(self).wf(),
            match transfer_spec(old(self)@, from, to, asset, amount) {
                Ok(s) => r is Ok && final(self)@ == s,
                Err(e) => r == Err::<(), SettlementError>(e) && final(self)@ == old(self)@,
            },
    {
        if from >= self.accounts.len() || to >= self.accounts.len() {
            return Err(SettlementError::UnknownAccount);
        }
        let src_record = self.accounts[from];
        let src = src_record.get(asset);
        if src.reserved < amount {
            return Err(SettlementError::InsufficientFunds);
        }
        let paid_record = src_record.with(
            asset,
            VaultBalance { available: src.available, reserved: src.reserved - amount },
        );
        let dst_record = if to == from {
            paid_record
        } else {
            self.accounts[to]
        };
        let dst = dst_record.get(asset);
        assert(self@[from as int].wf());
        assert(self@[to as int].wf());
        let held: u64 = dst.available + dst.reserved;
        match held.checked_add(amount) {
            None => Err(SettlementError::ArithmeticOverflow),
            Some(_) => {
                proof {
                    lemma_transfer(self@, from, to, asset, amount, asset);
                }
                self.accounts.set(from, paid_record);
                self.accounts.set(
                    to,
                    dst_record.with(
                        asset,
                        VaultBalance { available: dst.available + amount, reserved: dst.reserved },
                    ),
                );
                Ok(())
            },
        }
    }
}

} // verus!
