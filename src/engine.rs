use vstd::prelude::*;

use std::collections::BTreeMap;

use crate::amount::{lemma_difference_units, lemma_sum_then_difference, lemma_sum_units, Amount};
use vstd::set::fold::{is_fun_commutative, lemma_fold_empty, lemma_fold_insert};

verus! {

broadcast use vstd::laws_cmp::group_laws_cmp, vstd::std_specs::btree::group_btree_axioms;

/// Identifies a client account.
pub type ClientId = u16;

/// Identifies a transaction.
pub type TransactionId = u32;

/// Why an operation was refused. No refused operation changes a balance or
/// a deposit record.
#[derive(Clone, Copy, Debug, PartialEq, Eq, Structural)]
pub enum Error {
    /// A dispute of a deposit that is not undisputed.
    AlreadyDisputed(TransactionId),
    /// The deposit belongs to another client.
    ClientMismatch { tx: TransactionId, expected: ClientId, found: ClientId },
    /// A deposit under an id that was deposited before.
    DuplicateTransactionId(TransactionId),
    /// A withdrawal of more than the available funds.
    InsufficientFunds { client: ClientId, available: Amount, requested: Amount },
    /// A deposit or withdrawal on an account frozen by a chargeback.
    Locked(ClientId),
    /// A resolution or chargeback of a deposit that is not under dispute.
    NotDisputed(TransactionId),
    /// No deposit was recorded under this id.
    TransactionNotFound(TransactionId),
}

impl Error {
    /// Whether processing of the whole stream must stop on this error.
    pub fn is_fatal(&self) -> (r: bool)
        ensures
            r == (self is ClientMismatch || self is DuplicateTransactionId),
    {
        match self {
            Error::ClientMismatch { .. } | Error::DuplicateTransactionId(_) => true,
            _ => false,
        }
    }
}

/// Where a deposit stands in its dispute lifecycle.
#[derive(Clone, Copy, Debug, PartialEq, Eq, Structural)]
pub enum DepositState {
    Undisputed,
    Dispute,
    Chargeback,
}

/// A deposit that may later be disputed.
#[derive(Clone, Copy, Debug, PartialEq, Eq, Structural)]
pub struct Deposit {
    pub client: ClientId,
    pub amount: Amount,
    pub state: DepositState,
}

/// The balances of one client.
#[derive(Clone, Copy, Debug, PartialEq, Eq, Structural)]
pub struct Account {
    pub total: Amount,
    pub held: Amount,
    pub locked: bool,
}

impl Account {
    /// An empty, unlocked account.
    pub open spec fn empty() -> Account {
        Account {
            total: Amount { mantissa: 0, scale: 0 },
            held: Amount { mantissa: 0, scale: 0 },
            locked: false,
        }
    }

    /// Both balances are well formed.
    pub open spec fn wf(self) -> bool {
        self.total.wf() && self.held.wf()
    }

    /// Funds that may be withdrawn: `total - held`.
    pub fn available(&self) -> (r: Amount)
        requires
            self.wf(),
            self.total.sub_fits(self.held),
        ensures
            r == self.total.spec_difference(self.held),
            r.wf(),
            r.units() == self.total.units() - self.held.units(),
    {
        match self.total.checked_sub(self.held) {
            Some(a) => a,
            None => self.total,
        }
    }
}

impl Default for Account {
    fn default() -> (r: Account)
        ensures
            r == Account::empty(),
    {
        Account { total: Amount::zero(), held: Amount::zero(), locked: false }
    }
}

/// What deposit `tx` adds to the held funds of `client`.
pub open spec fn held_share(deposits: Map<TransactionId, Deposit>, client: ClientId, tx: TransactionId) -> int {
    let d = deposits[tx];
    if d.client == client && d.state == DepositState::Dispute {
        d.amount.units()
    } else {
        0
    }
}

pub open spec fn add_held_share(deposits: Map<TransactionId, Deposit>, client: ClientId) -> spec_fn(int, TransactionId) -> int {
    |acc: int, tx: TransactionId| acc + held_share(deposits, client, tx)
}

/// The sum of the amounts of `client`'s deposits under dispute.
pub open spec fn disputed_units(deposits: Map<TransactionId, Deposit>, client: ClientId) -> int {
    deposits.dom().fold(0int, add_held_share(deposits, client))
}

proof fn lemma_add_held_share_commutative(deposits: Map<TransactionId, Deposit>, client: ClientId)
    ensures
        is_fun_commutative(add_held_share(deposits, client)),
{
}

/// Folding over ids on which two deposit tables give the same shares gives
/// the same sum.
proof fn lemma_fold_agree(
    s: Set<TransactionId>,
    m1: Map<TransactionId, Deposit>,
    m2: Map<TransactionId, Deposit>,
    client: ClientId,
)
    requires
        s.finite(),
        forall|t: TransactionId| s.contains(t) ==> held_share(m1, client, t) == held_share(m2, client, t),
    ensures
        s.fold(0int, add_held_share(m1, client)) == s.fold(0int, add_held_share(m2, client)),
    decreases s.len(),
{
    lemma_add_held_share_commutative(m1, client);
    lemma_add_held_share_commutative(m2, client);
    if s.len() == 0 {
        assert(s =~= Set::<TransactionId>::empty());
        lemma_fold_empty(0int, add_held_share(m1, client));
        lemma_fold_empty(0int, add_held_share(m2, client));
    } else {
        let t = s.choose();
        let r = s.remove(t);
        lemma_fold_agree(r, m1, m2, client);
        assert(r.insert(t) =~= s);
        lemma_fold_insert(r, 0int, add_held_share(m1, client), t);
        lemma_fold_insert(r, 0int, add_held_share(m2, client), t);
    }
}

/// Storing deposit `d` under `tx` changes a client's disputed sum by the
/// difference of the shares of the old and the new record.
proof fn lemma_disputed_units_insert(
    m: Map<TransactionId, Deposit>,
    tx: TransactionId,
    d: Deposit,
    client: ClientId,
)
    requires
        m.dom().finite(),
    ensures
        m.insert(tx, d).dom().finite(),
        disputed_units(m.insert(tx, d), client) == disputed_units(m, client) + held_share(
            m.insert(tx, d),
            client,
            tx,
        ) - (if m.contains_key(tx) {
            held_share(m, client, tx)
        } else {
            0
        }),
{
    let m2 = m.insert(tx, d);
    let r = m.dom().remove(tx);
    lemma_add_held_share_commutative(m, client);
    lemma_add_held_share_commutative(m2, client);
    assert(m2.dom() =~= r.insert(tx));
    lemma_fold_agree(r, m, m2, client);
    lemma_fold_insert(r, 0int, add_held_share(m2, client), tx);
    if m.contains_key(tx) {
        assert(m.dom() =~= r.insert(tx));
        lemma_fold_insert(r, 0int, add_held_share(m, client), tx);
    } else {
        assert(m.dom() =~= r);
    }
}

/// The state of an engine: the accounts and the deposit records.
pub struct Ledger {
    pub accounts: Map<ClientId, Account>,
    pub deposits: Map<TransactionId, Deposit>,
}

impl Ledger {
    /// The account of `client`; an absent one reads as empty.
    pub open spec fn account(self, client: ClientId) -> Account {
        if self.accounts.contains_key(client) {
            self.accounts[client]
        } else {
            Account::empty()
        }
    }

    /// Every stored amount is well formed, and each client's held funds are
    /// exactly the sum of its deposits under dispute.
    pub open spec fn wf(self) -> bool {
        &&& forall|c: ClientId| #[trigger] self.accounts.contains_key(c) ==> self.accounts[c].wf()
        &&& forall|t: TransactionId| #[trigger] self.deposits.contains_key(t)
            ==> self.deposits[t].amount.wf()
        &&& self.deposits.dom().finite()
        &&& forall|c: ClientId| #[trigger] self.account(c).held.units() == disputed_units(self.deposits, c)
    }

    /// `client`'s account brought into existence, nothing else changed.
    pub open spec fn touch(self, client: ClientId) -> Ledger {
        Ledger { accounts: self.accounts.insert(client, self.account(client)), deposits: self.deposits }
    }

    /// The record `tx` may be acted on by `client` only if it exists and
    /// belongs to `client`.
    pub open spec fn lookup_error(self, client: ClientId, tx: TransactionId) -> Option<Error> {
        if !self.deposits.contains_key(tx) {
            Some(Error::TransactionNotFound(tx))
        } else if self.deposits[tx].client != client {
            Some(Error::ClientMismatch { tx, expected: client, found: self.deposits[tx].client })
        } else {
            None
        }
    }

    /// The new total of a deposit that goes through is representable.
    pub open spec fn deposit_fits(self, client: ClientId, tx: TransactionId, amount: Amount) -> bool {
        let a = self.account(client);
        !a.locked && !self.deposits.contains_key(tx) ==> a.total.add_fits(amount)
    }

    /// The effect and result of a deposit.
    pub open spec fn deposit(self, client: ClientId, tx: TransactionId, amount: Amount) -> (Ledger, Result<(), Error>) {
        let a = self.account(client);
        if a.locked {
            (self.touch(client), Err(Error::Locked(client)))
        } else if self.deposits.contains_key(tx) {
            (self.touch(client), Err(Error::DuplicateTransactionId(tx)))
        } else {
            let a2 = Account { total: a.total.spec_sum(amount), held: a.held, locked: a.locked };
            let d = Deposit { client, amount, state: DepositState::Undisputed };
            (
                Ledger { accounts: self.accounts.insert(client, a2), deposits: self.deposits.insert(tx, d) },
                Ok(()),
            )
        }
    }

    /// The available funds, their comparison with `amount` and the new
    /// total of a withdrawal that goes through are representable.
    pub open spec fn withdraw_fits(self, client: ClientId, amount: Amount) -> bool {
        let a = self.account(client);
        let avail = a.total.spec_difference(a.held);
        !a.locked ==> {
            &&& a.total.sub_fits(a.held)
            &&& avail.cmp_fits(amount)
            &&& avail.units() >= amount.units() ==> a.total.sub_fits(amount)
        }
    }

    /// The effect and result of a withdrawal.
    pub open spec fn withdraw(self, client: ClientId, amount: Amount) -> (Ledger, Result<(), Error>) {
        let a = self.account(client);
        let avail = a.total.spec_difference(a.held);
        if a.locked {
            (self.touch(client), Err(Error::Locked(client)))
        } else if avail.units() < amount.units() {
            (
                self.touch(client),
                Err(Error::InsufficientFunds { client, available: avail, requested: amount }),
            )
        } else {
            let a2 = Account { total: a.total.spec_difference(amount), held: a.held, locked: a.locked };
            (Ledger { accounts: self.accounts.insert(client, a2), deposits: self.deposits }, Ok(()))
        }
    }

    /// `tx`'s record with its state replaced.
    pub open spec fn with_state(self, tx: TransactionId, state: DepositState) -> Map<TransactionId, Deposit> {
        let d = self.deposits[tx];
        self.deposits.insert(tx, Deposit { client: d.client, amount: d.amount, state })
    }

    /// The new held amount of a dispute that goes through is representable.
    pub open spec fn dispute_fits(self, client: ClientId, tx: TransactionId) -> bool {
        self.lookup_error(client, tx) is None && self.deposits[tx].state == DepositState::Undisputed
            ==> self.account(client).held.add_fits(self.deposits[tx].amount)
    }

    /// The effect and result of a dispute.
    pub open spec fn dispute(self, client: ClientId, tx: TransactionId) -> (Ledger, Result<(), Error>) {
        let a = self.account(client);
        if let Some(e) = self.lookup_error(client, tx) {
            (self.touch(client), Err(e))
        } else if self.deposits[tx].state != DepositState::Undisputed {
            (self.touch(client), Err(Error::AlreadyDisputed(tx)))
        } else {
            let a2 = Account {
                total: a.total,
                held: a.held.spec_sum(self.deposits[tx].amount),
                locked: a.locked,
            };
            (
                Ledger {
                    accounts: self.accounts.insert(client, a2),
                    deposits: self.with_state(tx, DepositState::Dispute),
                },
                Ok(()),
            )
        }
    }

    /// The new held amount of a resolution that goes through is representable.
    pub open spec fn resolve_fits(self, client: ClientId, tx: TransactionId) -> bool {
        self.lookup_error(client, tx) is None && self.deposits[tx].state == DepositState::Dispute
            ==> self.account(client).held.sub_fits(self.deposits[tx].amount)
    }

    /// The effect and result of a resolution.
    pub open spec fn resolve(self, client: ClientId, tx: TransactionId) -> (Ledger, Result<(), Error>) {
        let a = self.account(client);
        if let Some(e) = self.lookup_error(client, tx) {
            (self.touch(client), Err(e))
        } else if self.deposits[tx].state != DepositState::Dispute {
            (self.touch(client), Err(Error::NotDisputed(tx)))
        } else {
            let a2 = Account {
                total: a.total,
                held: a.held.spec_difference(self.deposits[tx].amount),
                locked: a.locked,
            };
            (
                Ledger {
                    accounts: self.accounts.insert(client, a2),
                    deposits: self.with_state(tx, DepositState::Undisputed),
                },
                Ok(()),
            )
        }
    }

    /// The new balances of a chargeback that goes through are representable.
    pub open spec fn chargeback_fits(self, client: ClientId, tx: TransactionId) -> bool {
        self.lookup_error(client, tx) is None && self.deposits[tx].state == DepositState::Dispute
            ==> {
            &&& self.account(client).held.sub_fits(self.deposits[tx].amount)
            &&& self.account(client).total.sub_fits(self.deposits[tx].amount)
        }
    }

    /// The effect and result of a chargeback.
    pub open spec fn chargeback(self, client: ClientId, tx: TransactionId) -> (Ledger, Result<(), Error>) {
        let a = self.account(client);
        if let Some(e) = self.lookup_error(client, tx) {
            (self.touch(client), Err(e))
        } else if self.deposits[tx].state != DepositState::Dispute {
            (self.touch(client), Err(Error::NotDisputed(tx)))
        } else {
            let amount = self.deposits[tx].amount;
            let a2 = Account {
                total: a.total.spec_difference(amount),
                held: a.held.spec_difference(amount),
                locked: true,
            };
            (
                Ledger {
                    accounts: self.accounts.insert(client, a2),
                    deposits: self.with_state(tx, DepositState::Chargeback),
                },
                Ok(()),
            )
        }
    }
}

/// Replacing `client`'s account and the deposit table keeps the ledger well
/// formed when every other client's disputed sum is unchanged.
proof fn lemma_step_wf(l: Ledger, client: ClientId, a2: Account, m2: Map<TransactionId, Deposit>)
    requires
        l.wf(),
        a2.wf(),
        m2.dom().finite(),
        forall|t: TransactionId| #[trigger] m2.contains_key(t) ==> m2[t].amount.wf(),
        a2.held.units() == disputed_units(m2, client),
        forall|c: ClientId| c != client ==> #[trigger] disputed_units(m2, c) == disputed_units(l.deposits, c),
    ensures
        (Ledger { accounts: l.accounts.insert(client, a2), deposits: m2 }).wf(),
{
    let l2 = Ledger { accounts: l.accounts.insert(client, a2), deposits: m2 };
    assert forall|c: ClientId| #[trigger] l2.account(c).held.units() == disputed_units(l2.deposits, c) by {
        if c != client {
            assert(l2.account(c) == l.account(c));
            assert(l.account(c).held.units() == disputed_units(l.deposits, c));
        }
    }
}

/// A record whose owner is `client` adds nothing to another client's sum.
proof fn lemma_other_clients_unchanged(m: Map<TransactionId, Deposit>, tx: TransactionId, d: Deposit, client: ClientId)
    requires
        m.dom().finite(),
        d.client == client,
        m.contains_key(tx) ==> m[tx].client == client,
    ensures
        forall|c: ClientId| c != client ==> #[trigger] disputed_units(m.insert(tx, d), c) == disputed_units(m, c),
{
    assert forall|c: ClientId| c != client implies #[trigger] disputed_units(m.insert(tx, d), c) == disputed_units(m, c) by {
        lemma_disputed_units_insert(m, tx, d, c);
    }
}

proof fn lemma_touch_wf(l: Ledger, client: ClientId)
    requires
        l.wf(),
    ensures
        l.touch(client).wf(),
{
    lemma_touch_keeps_state(l, client);
    let t = l.touch(client);
    assert forall|c: ClientId| #[trigger] t.account(c).held.units() == disputed_units(t.deposits, c) by {
        assert(t.account(c) == l.account(c));
        assert(l.account(c).held.units() == disputed_units(l.deposits, c));
    }
}

proof fn lemma_deposit_wf(l: Ledger, client: ClientId, tx: TransactionId, amount: Amount)
    requires
        l.wf(),
        amount.wf(),
        l.deposit_fits(client, tx, amount),
    ensures
        l.deposit(client, tx, amount).0.wf(),
{
    lemma_touch_wf(l, client);
    let a = l.account(client);
    if !a.locked && !l.deposits.contains_key(tx) {
        let d = Deposit { client, amount, state: DepositState::Undisputed };
        lemma_sum_units(a.total, amount);
        lemma_disputed_units_insert(l.deposits, tx, d, client);
        lemma_other_clients_unchanged(l.deposits, tx, d, client);
        let a2 = Account { total: a.total.spec_sum(amount), held: a.held, locked: a.locked };
        lemma_step_wf(l, client, a2, l.deposits.insert(tx, d));
    }
}

proof fn lemma_withdraw_wf(l: Ledger, client: ClientId, amount: Amount)
    requires
        l.wf(),
        amount.wf(),
        l.withdraw_fits(client, amount),
    ensures
        l.withdraw(client, amount).0.wf(),
{
    lemma_touch_wf(l, client);
    let a = l.account(client);
    if !a.locked {
        lemma_difference_units(a.total, a.held);
        if a.total.spec_difference(a.held).units() >= amount.units() {
            lemma_difference_units(a.total, amount);
            let a2 = Account { total: a.total.spec_difference(amount), held: a.held, locked: a.locked };
            lemma_step_wf(l, client, a2, l.deposits);
        }
    }
}

/// Moving `client`'s record `tx` to `state` and setting its held funds to
/// `held` keeps the ledger well formed when `held` accounts for the change
/// of the record's share.
proof fn lemma_restate_wf(l: Ledger, client: ClientId, tx: TransactionId, state: DepositState, a2: Account)
    requires
        l.wf(),
        a2.wf(),
        l.lookup_error(client, tx) is None,
        a2.held.units() == l.account(client).held.units() - held_share(l.deposits, client, tx)
            + (if state == DepositState::Dispute {
            l.deposits[tx].amount.units()
        } else {
            0
        }),
    ensures
        (Ledger { accounts: l.accounts.insert(client, a2), deposits: l.with_state(tx, state) }).wf(),
{
    let d = l.deposits[tx];
    let d2 = Deposit { client: d.client, amount: d.amount, state };
    lemma_disputed_units_insert(l.deposits, tx, d2, client);
    lemma_other_clients_unchanged(l.deposits, tx, d2, client);
    lemma_step_wf(l, client, a2, l.with_state(tx, state));
}

proof fn lemma_dispute_wf(l: Ledger, client: ClientId, tx: TransactionId)
    requires
        l.wf(),
        l.dispute_fits(client, tx),
    ensures
        l.dispute(client, tx).0.wf(),
{
    lemma_touch_wf(l, client);
    if l.lookup_error(client, tx) is None && l.deposits[tx].state == DepositState::Undisputed {
        let a = l.account(client);
        lemma_sum_units(a.held, l.deposits[tx].amount);
        let a2 = Account { total: a.total, held: a.held.spec_sum(l.deposits[tx].amount), locked: a.locked };
        lemma_restate_wf(l, client, tx, DepositState::Dispute, a2);
    }
}

proof fn lemma_resolve_wf(l: Ledger, client: ClientId, tx: TransactionId)
    requires
        l.wf(),
        l.resolve_fits(client, tx),
    ensures
        l.resolve(client, tx).0.wf(),
{
    lemma_touch_wf(l, client);
    if l.lookup_error(client, tx) is None && l.deposits[tx].state == DepositState::Dispute {
        let a = l.account(client);
        lemma_difference_units(a.held, l.deposits[tx].amount);
        let a2 = Account { total: a.total, held: a.held.spec_difference(l.deposits[tx].amount), locked: a.locked };
        lemma_restate_wf(l, client, tx, DepositState::Undisputed, a2);
    }
}

proof fn lemma_chargeback_wf(l: Ledger, client: ClientId, tx: TransactionId)
    requires
        l.wf(),
        l.chargeback_fits(client, tx),
    ensures
        l.chargeback(client, tx).0.wf(),
{
    lemma_touch_wf(l, client);
    if l.lookup_error(client, tx) is None && l.deposits[tx].state == DepositState::Dispute {
        let a = l.account(client);
        let amount = l.deposits[tx].amount;
        lemma_difference_units(a.held, amount);
        lemma_difference_units(a.total, amount);
        let a2 = Account { total: a.total.spec_difference(amount), held: a.held.spec_difference(amount), locked: true };
        lemma_restate_wf(l, client, tx, DepositState::Chargeback, a2);
    }
}

/// Replays deposits, withdrawals, disputes, resolutions and chargebacks
/// against client accounts.
pub struct Engine {
    accounts: BTreeMap<ClientId, Account>,
    deposits: BTreeMap<TransactionId, Deposit>,
}

impl View for Engine {
    type V = Ledger;

    closed spec fn view(&self) -> Ledger {
        Ledger { accounts: self.accounts@, deposits: self.deposits@ }
    }
}

impl Engine {
    /// An engine with no accounts and no deposits.
    pub fn new() -> (r: Engine)
        ensures
            r@.accounts == Map::<ClientId, Account>::empty(),
            r@.deposits == Map::<TransactionId, Deposit>::empty(),
            r@.wf(),
    {
        let e = Engine { accounts: BTreeMap::new(), deposits: BTreeMap::new() };
        proof {
            assert(e@.deposits.dom() =~= Set::<TransactionId>::empty());
            assert forall|c: ClientId| #[trigger] e@.account(c).held.units() == disputed_units(e@.deposits, c) by {
                lemma_fold_empty(0int, add_held_share(e@.deposits, c));
            }
        }
        e
    }

    /// The account of `client`, empty if it was never referenced.
    pub fn account(&self, client: ClientId) -> (r: Account)
        ensures
            r == self@.account(client),
    {
        match self.accounts.get(&client) {
            Some(a) => *a,
            None => Account::default(),
        }
    }

    /// The stored record of deposit `tx`, if any.
    pub fn deposit_record(&self, tx: TransactionId) -> (r: Option<Deposit>)
        ensures
            r == (if self@.deposits.contains_key(tx) {
                Some(self@.deposits[tx])
            } else {
                None
            }),
    {
        match self.deposits.get(&tx) {
            Some(d) => Some(*d),
            None => None,
        }
    }

    /// The account of `client`, created empty if it does not exist yet.
    fn touch_account(&mut self, client: ClientId) -> (r: Account)
        ensures
            r == old(self)@.account(client),
            final(self)@ == old(self)@.touch(client),
    {
        let a = self.account(client);
        self.accounts.insert(client, a);
        a
    }

    /// Credits `amount` to `client` and records `tx` as an undisputed deposit.
    ///
    /// Fails with `Locked` on a locked account, then with
    /// `DuplicateTransactionId` where `tx` was deposited before.
    pub fn deposit(&mut self, client: ClientId, tx: TransactionId, amount: Amount) -> (r: Result<(), Error>)
        requires
            old(self)@.wf(),
            amount.wf(),
            old(self)@.deposit_fits(client, tx, amount),
        ensures
            (final(self)@, r) == old(self)@.deposit(client, tx, amount),
            final(self)@.wf(),
    {
        let ghost l = self@;
        proof {
            lemma_deposit_wf(l, client, tx, amount);
        }
        let account = self.touch_account(client);
        if account.locked {
            return Err(Error::Locked(client));
        }
        if self.deposits.contains_key(&tx) {
            return Err(Error::DuplicateTransactionId(tx));
        }
        self.deposits.insert(tx, Deposit { client, amount, state: DepositState::Undisputed });
        let total = match account.total.checked_add(amount) {
            Some(t) => t,
            None => account.total,
        };
        self.accounts.insert(client, Account { total, held: account.held, locked: account.locked });
        assert(self@.accounts =~= l.deposit(client, tx, amount).0.accounts);
        Ok(())
    }

    /// Debits `amount` from `client`. No record of `tx` is kept.
    ///
    /// Fails with `Locked` on a locked account, then with
    /// `InsufficientFunds` where the available funds are less than `amount`.
    pub fn withdraw(&mut self, client: ClientId, _tx: TransactionId, amount: Amount) -> (r: Result<(), Error>)
        requires
            old(self)@.wf(),
            amount.wf(),
            old(self)@.withdraw_fits(client, amount),
        ensures
            (final(self)@, r) == old(self)@.withdraw(client, amount),
            final(self)@.wf(),
    {
        let ghost l = self@;
        proof {
            lemma_withdraw_wf(l, client, amount);
        }
        let account = self.touch_account(client);
        if account.locked {
            return Err(Error::Locked(client));
        }
        let available = account.available();
        if available.less_than(amount) {
            return Err(Error::InsufficientFunds { client, available, requested: amount });
        }
        let total = match account.total.checked_sub(amount) {
            Some(t) => t,
            None => account.total,
        };
        self.accounts.insert(client, Account { total, held: account.held, locked: account.locked });
        assert(self@.accounts =~= l.withdraw(client, amount).0.accounts);
        Ok(())
    }

    /// Reads the record of `tx` for an operation by `client`.
    fn claim(&self, client: ClientId, tx: TransactionId) -> (r: Result<Deposit, Error>)
        ensures
            match self@.lookup_error(client, tx) {
                Some(e) => r == Err::<Deposit, Error>(e),
                None => r == Ok::<Deposit, Error>(self@.deposits[tx]),
            },
    {
        match self.deposits.get(&tx) {
            Some(d) => {
                if d.client != client {
                    Err(Error::ClientMismatch { tx, expected: client, found: d.client })
                } else {
                    Ok(*d)
                }
            },
            None => Err(Error::TransactionNotFound(tx)),
        }
    }

    /// Holds the amount of undisputed deposit `tx` of `client`.
    ///
    /// Fails with `TransactionNotFound`, then `ClientMismatch`, then
    /// `AlreadyDisputed`. A locked account may still be disputed.
    pub fn dispute(&mut self, client: ClientId, tx: TransactionId) -> (r: Result<(), Error>)
        requires
            old(self)@.wf(),
            old(self)@.dispute_fits(client, tx),
        ensures
            (final(self)@, r) == old(self)@.dispute(client, tx),
            final(self)@.wf(),
    {
        let ghost l = self@;
        proof {
            lemma_dispute_wf(l, client, tx);
        }
        let account = self.touch_account(client);
        let deposit = match self.claim(client, tx) {
            Ok(d) => d,
            Err(e) => {
                return Err(e);
            },
        };
        if deposit.state != DepositState::Undisputed {
            return Err(Error::AlreadyDisputed(tx));
        }
        self.deposits.insert(tx, Deposit { client: deposit.client, amount: deposit.amount, state: DepositState::Dispute });
        let held = match account.held.checked_add(deposit.amount) {
            Some(h) => h,
            None => account.held,
        };
        self.accounts.insert(client, Account { total: account.total, held, locked: account.locked });
        assert(self@.accounts =~= l.dispute(client, tx).0.accounts);
        Ok(())
    }

    /// Releases the held amount of disputed deposit `tx` of `client`.
    ///
    /// Fails with `TransactionNotFound`, then `ClientMismatch`, then
    /// `NotDisputed`.
    pub fn resolve(&mut self, client: ClientId, tx: TransactionId) -> (r: Result<(), Error>)
        requires
            old(self)@.wf(),
            old(self)@.resolve_fits(client, tx),
        ensures
            (final(self)@, r) == old(self)@.resolve(client, tx),
            final(self)@.wf(),
    {
        let ghost l = self@;
        proof {
            lemma_resolve_wf(l, client, tx);
        }
        let account = self.touch_account(client);
        let deposit = match self.claim(client, tx) {
            Ok(d) => d,
            Err(e) => {
                return Err(e);
            },
        };
        if deposit.state != DepositState::Dispute {
            return Err(Error::NotDisputed(tx));
        }
        self.deposits.insert(tx, Deposit { client: deposit.client, amount: deposit.amount, state: DepositState::Undisputed });
        let held = match account.held.checked_sub(deposit.amount) {
            Some(h) => h,
            None => account.held,
        };
        self.accounts.insert(client, Account { total: account.total, held, locked: account.locked });
        assert(self@.accounts =~= l.resolve(client, tx).0.accounts);
        Ok(())
    }

    /// Reverses disputed deposit `tx` of `client` and locks the account.
    ///
    /// Fails with `TransactionNotFound`, then `ClientMismatch`, then
    /// `NotDisputed`. The record can never be acted on again.
    pub fn chargeback(&mut self, client: ClientId, tx: TransactionId) -> (r: Result<(), Error>)
        requires
            old(self)@.wf(),
            old(self)@.chargeback_fits(client, tx),
        ensures
            (final(self)@, r) == old(self)@.chargeback(client, tx),
            final(self)@.wf(),
    {
        let ghost l = self@;
        proof {
            lemma_chargeback_wf(l, client, tx);
        }
        let account = self.touch_account(client);
        let deposit = match self.claim(client, tx) {
            Ok(d) => d,
            Err(e) => {
                return Err(e);
            },
        };
        if deposit.state != DepositState::Dispute {
            return Err(Error::NotDisputed(tx));
        }
        self.deposits.insert(tx, Deposit { client: deposit.client, amount: deposit.amount, state: DepositState::Chargeback });
        let held = match account.held.checked_sub(deposit.amount) {
            Some(h) => h,
            None => account.held,
        };
        let total = match account.total.checked_sub(deposit.amount) {
            Some(t) => t,
            None => account.total,
        };
        self.accounts.insert(client, Account { total, held, locked: true });
        assert(self@.accounts =~= l.chargeback(client, tx).0.accounts);
        Ok(())
    }

    /// A copy of every account, ordered by client id.
    pub fn accounts(&self) -> (r: BTreeMap<ClientId, Account>)
        ensures
            r@ == self@.accounts,
    {
        self.accounts.clone()
    }
}

/// Touching an account changes no account's balances and no deposit record.
pub proof fn lemma_touch_keeps_state(l: Ledger, client: ClientId)
    ensures
        forall|k: ClientId| #[trigger] l.touch(client).account(k) == l.account(k),
        l.touch(client).deposits == l.deposits,
{
}

/// In a well-formed ledger, which every operation keeps, a client's held
/// funds are exactly the sum of the amounts of its deposits under dispute.
pub proof fn lemma_held_is_disputed_sum(l: Ledger, client: ClientId)
    requires
        l.wf(),
    ensures
        l.account(client).held.units() == disputed_units(l.deposits, client),
{
}

/// Available funds are always exactly `total - held`.
pub proof fn lemma_available_is_total_minus_held(l: Ledger, client: ClientId)
    requires
        l.wf(),
        l.account(client).total.sub_fits(l.account(client).held),
    ensures
        ({
            let a = l.account(client);
            a.total.spec_difference(a.held).units() == a.total.units() - a.held.units()
        }),
{
    lemma_difference_units(l.account(client).total, l.account(client).held);
}

/// A deposit, then a dispute of it, then its resolution all succeed; `held`
/// returns to its value before the deposit and `total` keeps the deposit.
pub proof fn lemma_dispute_resolve_round_trip(l: Ledger, client: ClientId, tx: TransactionId, amount: Amount)
    requires
        l.wf(),
        amount.wf(),
        !l.account(client).locked,
        !l.deposits.contains_key(tx),
        l.account(client).total.add_fits(amount),
        l.account(client).held.add_fits(amount),
    ensures
        ({
            let (l1, r1) = l.deposit(client, tx, amount);
            let (l2, r2) = l1.dispute(client, tx);
            let (l3, r3) = l2.resolve(client, tx);
            &&& r1 is Ok && r2 is Ok && r3 is Ok
            &&& l3.account(client).held.units() == l.account(client).held.units()
            &&& l3.account(client).total == l1.account(client).total
            &&& l3.account(client).locked == l.account(client).locked
            &&& l3.deposits == l1.deposits
        }),
{
    let l1 = l.deposit(client, tx, amount).0;
    let l2 = l1.dispute(client, tx).0;
    let l3 = l2.resolve(client, tx).0;
    lemma_sum_then_difference(l.account(client).held, amount);
    assert(l3.deposits =~= l1.deposits);
}

/// A deposit, then a dispute of it, then a chargeback all succeed; `total`
/// and `held` return to their values before the deposit and the account is
/// locked.
pub proof fn lemma_dispute_chargeback(l: Ledger, client: ClientId, tx: TransactionId, amount: Amount)
    requires
        l.wf(),
        amount.wf(),
        !l.account(client).locked,
        !l.deposits.contains_key(tx),
        l.account(client).total.add_fits(amount),
        l.account(client).held.add_fits(amount),
    ensures
        ({
            let (l1, r1) = l.deposit(client, tx, amount);
            let (l2, r2) = l1.dispute(client, tx);
            let (l3, r3) = l2.chargeback(client, tx);
            &&& r1 is Ok && r2 is Ok && r3 is Ok
            &&& l3.account(client).total.units() == l.account(client).total.units()
            &&& l3.account(client).held.units() == l.account(client).held.units()
            &&& l3.account(client).locked
            &&& l3.deposits[tx].state == DepositState::Chargeback
        }),
{
    lemma_sum_then_difference(l.account(client).held, amount);
    lemma_sum_then_difference(l.account(client).total, amount);
}

/// Depositing under a transaction id that was deposited before fails with
/// `DuplicateTransactionId` and changes no balance and no record.
pub proof fn lemma_duplicate_deposit(l: Ledger, client: ClientId, tx: TransactionId, amount: Amount)
    requires
        !l.account(client).locked,
        l.deposits.contains_key(tx),
    ensures
        ({
            let (l1, r) = l.deposit(client, tx, amount);
            &&& r == Err::<(), Error>(Error::DuplicateTransactionId(tx))
            &&& forall|k: ClientId| #[trigger] l1.account(k) == l.account(k)
            &&& l1.deposits == l.deposits
        }),
{
    lemma_touch_keeps_state(l, client);
}

/// Withdrawing more than is available fails with `InsufficientFunds`,
/// reporting what was available and what was asked, and changes nothing.
pub proof fn lemma_overdraft_refused(l: Ledger, client: ClientId, amount: Amount)
    requires
        !l.account(client).locked,
        l.account(client).total.spec_difference(l.account(client).held).units() < amount.units(),
    ensures
        ({
            let a = l.account(client);
            let (l1, r) = l.withdraw(client, amount);
            &&& r == Err::<(), Error>(
                Error::InsufficientFunds { client, available: a.total.spec_difference(a.held), requested: amount },
            )
            &&& forall|k: ClientId| #[trigger] l1.account(k) == l.account(k)
            &&& l1.deposits == l.deposits
        }),
{
    lemma_touch_keeps_state(l, client);
}

/// A withdrawal never creates a deposit record, so a transaction id that
/// was only ever withdrawn cannot be disputed.
pub proof fn lemma_withdrawal_not_disputable(l: Ledger, client: ClientId, tx: TransactionId, amount: Amount)
    requires
        !l.deposits.contains_key(tx),
    ensures
        l.withdraw(client, amount).0.deposits == l.deposits,
        l.withdraw(client, amount).0.dispute(client, tx).1 == Err::<(), Error>(Error::TransactionNotFound(tx)),
{
}

/// Disputing, resolving or charging back another client's deposit fails
/// with `ClientMismatch` and changes no balance and no record.
pub proof fn lemma_client_mismatch(l: Ledger, client: ClientId, tx: TransactionId)
    requires
        l.deposits.contains_key(tx),
        l.deposits[tx].client != client,
    ensures
        ({
            let e = Err::<(), Error>(Error::ClientMismatch { tx, expected: client, found: l.deposits[tx].client });
            let (l1, r1) = l.dispute(client, tx);
            let (l2, r2) = l.resolve(client, tx);
            let (l3, r3) = l.chargeback(client, tx);
            &&& r1 == e && r2 == e && r3 == e
            &&& l1 == l.touch(client) && l2 == l.touch(client) && l3 == l.touch(client)
            &&& forall|k: ClientId| #[trigger] l.touch(client).account(k) == l.account(k)
            &&& l.touch(client).deposits == l.deposits
        }),
{
    lemma_touch_keeps_state(l, client);
}

/// A locked account refuses deposits and withdrawals with `Locked`, but
/// disputes, resolutions and chargebacks of its own deposits still go
/// through.
pub proof fn lemma_lock_blocks_only_credit_and_debit(l: Ledger, client: ClientId, tx: TransactionId, amount: Amount)
    requires
        l.account(client).locked,
    ensures
        l.deposit(client, tx, amount).1 == Err::<(), Error>(Error::Locked(client)),
        l.withdraw(client, amount).1 == Err::<(), Error>(Error::Locked(client)),
        l.lookup_error(client, tx) is None && l.deposits[tx].state == DepositState::Undisputed
            ==> l.dispute(client, tx).1 is Ok,
        l.lookup_error(client, tx) is None && l.deposits[tx].state == DepositState::Dispute
            ==> l.resolve(client, tx).1 is Ok && l.chargeback(client, tx).1 is Ok,
{
}

} // verus!
