use vstd::prelude::*;
use crate::identity::Identity;
use crate::LedgerError;

verus! {

/// An account as contracts see it: the identity's bytes and the balance.
pub type AccountView = (Seq<u8>, u64);

/// One account record of the ledger.
pub struct Account {
    pub identity: Identity,
    pub balance: u64,
}

impl View for Account {
    type V = AccountView;

    open spec fn view(&self) -> AccountView {
        (self.identity@, self.balance)
    }
}

impl Account {
    /// A copy of this record.
    pub fn duplicate(&self) -> (r: Account)
        ensures
            r@ == self@,
    {
        Account { identity: self.identity.duplicate(), balance: self.balance }
    }
}

/// No two records share an identity.
pub open spec fn ids_unique(s: Seq<AccountView>) -> bool {
    forall|i: int, j: int|
        0 <= i < s.len() && 0 <= j < s.len() && i != j ==> #[trigger] s[i].0 != #[trigger] s[j].0
}

/// A state the ledger can be in: identities are unique, and every length fits
/// in the `u64` fields of a snapshot.
pub open spec fn valid_state(s: Seq<AccountView>) -> bool {
    &&& ids_unique(s)
    &&& s.len() <= u64::MAX
    &&& forall|i: int| 0 <= i < s.len() ==> #[trigger] s[i].0.len() <= u64::MAX
}

/// Whether some record belongs to `id`.
pub open spec fn has_account(s: Seq<AccountView>, id: Seq<u8>) -> bool {
    exists|i: int| 0 <= i < s.len() && #[trigger] s[i].0 == id
}

/// The index of the record of `id` (meaningful where `has_account(s, id)`).
pub open spec fn position_of(s: Seq<AccountView>, id: Seq<u8>) -> int {
    choose|i: int| 0 <= i < s.len() && #[trigger] s[i].0 == id
}

/// The balance held by `id` (meaningful where `has_account(s, id)`).
pub open spec fn balance_at(s: Seq<AccountView>, id: Seq<u8>) -> u64 {
    s[position_of(s, id)].1
}

/// The balance of `id`, or `None` where it has no account.
pub open spec fn balance_in(s: Seq<AccountView>, id: Seq<u8>) -> Option<u64> {
    if has_account(s, id) {
        Some(balance_at(s, id))
    } else {
        None
    }
}

/// `s` with the balance of `id` replaced by `b`.
pub open spec fn with_balance(s: Seq<AccountView>, id: Seq<u8>, b: u64) -> Seq<AccountView> {
    s.update(position_of(s, id), (id, b))
}

/// The sum of all balances.
pub open spec fn total(s: Seq<AccountView>) -> int
    decreases s.len(),
{
    if s.len() == 0 {
        0
    } else {
        total(s.drop_last()) + s.last().1
    }
}

/// The state after `id` registers with `initial`: a new record at the end,
/// or no change where `id` already has one.
pub open spec fn after_register(s: Seq<AccountView>, id: Seq<u8>, initial: u64) -> Seq<AccountView> {
    if has_account(s, id) {
        s
    } else {
        s.push((id, initial))
    }
}

/// What crediting `amount` to `id` returns: the new balance, or the error.
pub open spec fn credit_outcome(s: Seq<AccountView>, id: Seq<u8>, amount: u64) -> Result<u64, LedgerError> {
    if !has_account(s, id) {
        Err(LedgerError::NotFound)
    } else if balance_at(s, id) + amount > u64::MAX {
        Err(LedgerError::Overflow)
    } else {
        Ok((balance_at(s, id) + amount) as u64)
    }
}

/// The state after crediting `amount` to `id`.
pub open spec fn after_credit(s: Seq<AccountView>, id: Seq<u8>, amount: u64) -> Seq<AccountView> {
    match credit_outcome(s, id, amount) {
        Ok(b) => with_balance(s, id, b),
        Err(_) => s,
    }
}

/// What debiting `amount` from `id` returns.
pub open spec fn debit_outcome(s: Seq<AccountView>, id: Seq<u8>, amount: u64) -> Result<(), LedgerError> {
    if !has_account(s, id) {
        Err(LedgerError::NotFound)
    } else if balance_at(s, id) < amount {
        Err(LedgerError::InsufficientBalance)
    } else {
        Ok(())
    }
}

/// The state after debiting `amount` from `id`.
pub open spec fn after_debit(s: Seq<AccountView>, id: Seq<u8>, amount: u64) -> Seq<AccountView> {
    if debit_outcome(s, id, amount) == Ok::<(), LedgerError>(()) {
        with_balance(s, id, (balance_at(s, id) - amount) as u64)
    } else {
        s
    }
}

/// What moving `amount` from `from` to `to` returns. A transfer to oneself is
/// checked like any other and then changes nothing.
pub open spec fn transfer_outcome(s: Seq<AccountView>, from: Seq<u8>, to: Seq<u8>, amount: u64) -> Result<(), LedgerError> {
    if !has_account(s, from) || !has_account(s, to) {
        Err(LedgerError::NotFound)
    } else if balance_at(s, from) < amount {
        Err(LedgerError::InsufficientBalance)
    } else if from != to && balance_at(s, to) + amount > u64::MAX {
        Err(LedgerError::Overflow)
    } else {
        Ok(())
    }
}

/// The state after moving `amount` from `from` to `to`: both balances change
/// together, or neither does.
pub open spec fn after_transfer(s: Seq<AccountView>, from: Seq<u8>, to: Seq<u8>, amount: u64) -> Seq<AccountView> {
    if transfer_outcome(s, from, to, amount) == Ok::<(), LedgerError>(()) && from != to {
        with_balance(
            with_balance(s, from, (balance_at(s, from) - amount) as u64),
            to,
            (balance_at(s, to) + amount) as u64,
        )
    } else {
        s
    }
}

/// The record at `i` is the one that `position_of` picks for its identity.
pub proof fn lemma_position_of(s: Seq<AccountView>, i: int)
    requires
        ids_unique(s),
        0 <= i < s.len(),
    ensures
        has_account(s, s[i].0),
        position_of(s, s[i].0) == i,
{
    assert(has_account(s, s[i].0));
}

/// Changing a balance keeps every identity where it was.
pub proof fn lemma_with_balance(s: Seq<AccountView>, id: Seq<u8>, b: u64)
    requires
        valid_state(s),
        has_account(s, id),
    ensures
        valid_state(with_balance(s, id, b)),
        with_balance(s, id, b) == s.update(position_of(s, id), (id, b)),
        with_balance(s, id, b).len() == s.len(),
        forall|j: int| 0 <= j < s.len() ==> #[trigger] with_balance(s, id, b)[j].0 == s[j].0,
        forall|x: Seq<u8>| #[trigger] has_account(with_balance(s, id, b), x) == has_account(s, x),
        forall|x: Seq<u8>| has_account(s, x) ==> #[trigger] position_of(with_balance(s, id, b), x) == position_of(s, x),
        balance_at(with_balance(s, id, b), id) == b,
        forall|x: Seq<u8>| has_account(s, x) && x != id ==> #[trigger] balance_at(with_balance(s, id, b), x) == balance_at(s, x),
{
    let t = with_balance(s, id, b);
    let p = position_of(s, id);
    assert forall|j: int| 0 <= j < s.len() implies #[trigger] t[j].0 == s[j].0 by {}
    assert forall|x: Seq<u8>| #[trigger] has_account(t, x) == has_account(s, x) by {
        if has_account(s, x) {
            let k = position_of(s, x);
            assert(t[k].0 == x);
        }
        if has_account(t, x) {
            let k = position_of(t, x);
            assert(s[k].0 == x);
        }
    }
    assert forall|x: Seq<u8>| has_account(s, x) implies #[trigger] position_of(t, x) == position_of(s, x) by {
        let k = position_of(s, x);
        lemma_position_of(t, k);
    }
    lemma_position_of(t, p);
}

/// The sum of balances after one record changes.
pub proof fn lemma_total_update(s: Seq<AccountView>, i: int, a: AccountView)
    requires
        0 <= i < s.len(),
    ensures
        total(s.update(i, a)) == total(s) - s[i].1 + a.1,
    decreases s.len(),
{
    if i == s.len() - 1 {
        assert(s.update(i, a).drop_last() =~= s.drop_last());
    } else {
        lemma_total_update(s.drop_last(), i, a);
        assert(s.update(i, a).drop_last() =~= s.drop_last().update(i, a));
    }
}

/// A transfer of `n` from `a` to `b` followed by a transfer of `n` from `b`
/// back to `a`, where `a` can pay `n` and `b`'s balance has room for it,
/// succeeds twice and leaves the ledger as it was.
pub proof fn lemma_transfer_there_and_back(s: Seq<AccountView>, a: Seq<u8>, b: Seq<u8>, n: u64)
    requires
        valid_state(s),
        has_account(s, a),
        has_account(s, b),
        balance_at(s, a) >= n,
        a != b ==> balance_at(s, b) + n <= u64::MAX,
    ensures
        transfer_outcome(s, a, b, n) == Ok::<(), LedgerError>(()),
        transfer_outcome(after_transfer(s, a, b, n), b, a, n) == Ok::<(), LedgerError>(()),
        after_transfer(after_transfer(s, a, b, n), b, a, n) == s,
{
    if a != b {
        let sa = balance_at(s, a);
        let sb = balance_at(s, b);
        let s1 = with_balance(s, a, (sa - n) as u64);
        lemma_with_balance(s, a, (sa - n) as u64);
        let s2 = with_balance(s1, b, (sb + n) as u64);
        lemma_with_balance(s1, b, (sb + n) as u64);
        assert(after_transfer(s, a, b, n) == s2);
        let s3 = with_balance(s2, b, sb);
        lemma_with_balance(s2, b, sb);
        let s4 = with_balance(s3, a, sa);
        lemma_with_balance(s3, a, sa);
        assert(after_transfer(s2, b, a, n) == s4);
        assert(s4 =~= s);
    }
}

/// A transfer, whatever its outcome, leaves the sum of all balances as it was.
pub proof fn lemma_transfer_keeps_total(s: Seq<AccountView>, from: Seq<u8>, to: Seq<u8>, n: u64)
    requires
        valid_state(s),
    ensures
        total(after_transfer(s, from, to, n)) == total(s),
{
    if transfer_outcome(s, from, to, n) == Ok::<(), LedgerError>(()) && from != to {
        let sf = balance_at(s, from);
        let st = balance_at(s, to);
        let s1 = with_balance(s, from, (sf - n) as u64);
        lemma_with_balance(s, from, (sf - n) as u64);
        lemma_total_update(s, position_of(s, from), (from, (sf - n) as u64));
        lemma_with_balance(s1, to, (st + n) as u64);
        lemma_total_update(s1, position_of(s1, to), (to, (st + n) as u64));
    }
}

/// A credit that succeeds adds exactly its amount to the sum of all
/// balances; one that fails changes nothing.
pub proof fn lemma_credit_total(s: Seq<AccountView>, id: Seq<u8>, n: u64)
    requires
        valid_state(s),
    ensures
        credit_outcome(s, id, n) is Ok ==> total(after_credit(s, id, n)) == total(s) + n,
        credit_outcome(s, id, n) is Err ==> after_credit(s, id, n) == s,
{
    if credit_outcome(s, id, n) is Ok {
        let b = (balance_at(s, id) + n) as u64;
        lemma_total_update(s, position_of(s, id), (id, b));
    }
}

/// A debit that succeeds takes exactly its amount from the sum of all
/// balances; one that fails changes nothing.
pub proof fn lemma_debit_total(s: Seq<AccountView>, id: Seq<u8>, n: u64)
    requires
        valid_state(s),
    ensures
        debit_outcome(s, id, n) is Ok ==> total(after_debit(s, id, n)) == total(s) - n,
        debit_outcome(s, id, n) is Err ==> after_debit(s, id, n) == s,
{
    if debit_outcome(s, id, n) is Ok {
        let b = (balance_at(s, id) - n) as u64;
        lemma_total_update(s, position_of(s, id), (id, b));
    }
}

/// Registering the same identity twice: the second attempt finds the account
/// that the first opened and changes nothing, so exactly one record holds that
/// identity, with the first initial balance.
pub proof fn lemma_register_twice(s: Seq<AccountView>, id: Seq<u8>, first: u64, second: u64)
    requires
        valid_state(s),
        !has_account(s, id),
    ensures
        has_account(after_register(s, id, first), id),
        after_register(after_register(s, id, first), id, second) == after_register(s, id, first),
        ids_unique(after_register(s, id, first)),
        balance_in(after_register(s, id, first), id) == Some(first),
{
    let s1 = after_register(s, id, first);
    assert(s1 == s.push((id, first)));
    assert forall|i: int, j: int| 0 <= i < s1.len() && 0 <= j < s1.len() && i != j
        implies #[trigger] s1[i].0 != #[trigger] s1[j].0 by {
        if i < s.len() && j < s.len() {
            assert(s1[i] == s[i] && s1[j] == s[j]);
        } else if i < s.len() {
            assert(s1[i] == s[i]);
        } else {
            assert(s1[j] == s[j]);
        }
    }
    lemma_position_of(s1, s.len() as int);
}

/// The account table. Each identity holds at most one record; records keep
/// the order in which they were registered.
pub struct Ledger {
    accounts: Vec<Account>,
}

impl View for Ledger {
    type V = Seq<AccountView>;

    closed spec fn view(&self) -> Seq<AccountView> {
        self.accounts@.map_values(|a: Account| a@)
    }
}

impl Ledger {
    /// The ledger's invariant.
    pub open spec fn wf(&self) -> bool {
        valid_state(self@)
    }

    /// A ledger with no accounts.
    pub fn new() -> (r: Ledger)
        ensures
            r.wf(),
            r@ == Seq::<AccountView>::empty(),
    {
        let r = Ledger { accounts: Vec::new() };
        assert(r@ =~= Seq::<AccountView>::empty());
        r
    }

    /// The number of accounts.
    pub fn len(&self) -> (r: usize)
        ensures
            r == self@.len(),
    {
        self.accounts.len()
    }

    /// The record at index `i`, in the order of registration.
    pub fn account_at(&self, i: usize) -> (r: &Account)
        requires
            i < self@.len(),
        ensures
            r@ == self@[i as int],
    {
        &self.accounts[i]
    }

    /// The index of the record of `id`, if there is one.
    fn find(&self, id: &Identity) -> (r: Option<usize>)
        requires
            self.wf(),
        ensures
            match r {
                Some(i) => {
                    &&& i < self@.len()
                    &&& has_account(self@, id@)
                    &&& position_of(self@, id@) == i
                    &&& self@[i as int].0 == id@
                },
                None => !has_account(self@, id@),
            },
    {
        let n = self.accounts.len();
        let mut i: usize = 0;
        while i < n
            invariant
                self.wf(),
                n == self@.len(),
                i <= n,
                forall|j: int| 0 <= j < i ==> #[trigger] self@[j].0 != id@,
            decreases n - i,
        {
            if self.accounts[i].identity.same_as(id) {
                proof {
                    lemma_position_of(self@, i as int);
                }
                return Some(i);
            }
            i = i + 1;
        }
        None
    }
    /// Sets the balance of the record at `i`.
    fn set_balance(&mut self, i: usize, b: u64)
        requires
            i < old(self)@.len(),
        ensures
            final(self)@ == old(self)@.update(i as int, (old(self)@[i as int].0, b)),
    {
        self.accounts[i].balance = b;
        assert(self@ =~= old(self)@.update(i as int, (old(self)@[i as int].0, b)));
    }

    /// A copy of every record, in the order of registration.
    pub fn list_accounts(&self) -> (r: Vec<Account>)
        ensures
            r@.map_values(|a: Account| a@) == self@,
    {
        let mut r: Vec<Account> = Vec::new();
        let n = self.accounts.len();
        let mut i: usize = 0;
        while i < n
            invariant
                n == self@.len(),
                i <= n,
                r@.len() == i,
                forall|j: int| 0 <= j < i ==> #[trigger] r@[j]@ == self@[j],
            decreases n - i,
        {
            let a = self.accounts[i].duplicate();
            r.push(a);
            i = i + 1;
        }
        assert(r@.map_values(|a: Account| a@) =~= self@);
        r
    }

    /// The balance of `id`, or `None` where it has no account.
    pub fn balance_of(&self, id: &Identity) -> (r: Option<u64>)
        requires
            self.wf(),
        ensures
            r == balance_in(self@, id@),
    {
        match self.find(id) {
            Some(i) => Some(self.accounts[i].balance),
            None => None,
        }
    }

    /// Opens an account for `caller` with `initial_balance` and returns the
    /// caller. Fails, changing nothing, where the caller already has one.
    pub fn register(&mut self, caller: Identity, initial_balance: u64) -> (r: Result<Identity, LedgerError>)
        requires
            old(self).wf(),
        ensures
            final(self).wf(),
            final(self)@ == after_register(old(self)@, caller@, initial_balance),
            match r {
                Ok(id) => id@ == caller@ && !has_account(old(self)@, caller@),
                Err(e) => e == LedgerError::AlreadyRegistered && has_account(old(self)@, caller@),
            },
    {
        if self.find(&caller).is_some() {
            return Err(LedgerError::AlreadyRegistered);
        }
        // Both lengths are `usize` values, so they fit in the `u64` fields of
        // a snapshot.
        let id_len = caller.len();
        let echo = caller.duplicate();
        self.accounts.push(Account { identity: caller, balance: initial_balance });
        let count = self.accounts.len();
        assert(id_len <= u64::MAX && count <= u64::MAX);
        proof {
            let s = old(self)@;
            assert(self@ =~= s.push((caller@, initial_balance)));
            assert forall|i: int, j: int|
                0 <= i < self@.len() && 0 <= j < self@.len() && i != j
                implies #[trigger] self@[i].0 != #[trigger] self@[j].0 by {
                if i < s.len() && j < s.len() {
                } else if i < s.len() {
                    assert(s[i].0 != caller@);
                } else {
                    assert(s[j].0 != caller@);
                }
            }
        }
        Ok(echo)
    }

    /// Adds `amount` to the balance of `caller` and returns the new balance.
    /// Fails, changing nothing, where `caller` has no account or the sum
    /// would not fit in a `u64`.
    pub fn credit(&mut self, caller: &Identity, amount: u64) -> (r: Result<u64, LedgerError>)
        requires
            old(self).wf(),
        ensures
            final(self).wf(),
            r == credit_outcome(old(self)@, caller@, amount),
            final(self)@ == after_credit(old(self)@, caller@, amount),
    {
        let i = match self.find(caller) {
            Some(i) => i,
            None => return Err(LedgerError::NotFound),
        };
        let b = self.accounts[i].balance;
        if b > u64::MAX - amount {
            return Err(LedgerError::Overflow);
        }
        proof {
            lemma_with_balance(self@, caller@, (b + amount) as u64);
        }
        self.set_balance(i, b + amount);
        Ok(b + amount)
    }

    /// Takes `amount` from the balance of `caller`. Fails, changing nothing,
    /// where `caller` has no account or holds less than `amount`.
    pub fn debit(&mut self, caller: &Identity, amount: u64) -> (r: Result<(), LedgerError>)
        requires
            old(self).wf(),
        ensures
            final(self).wf(),
            r == debit_outcome(old(self)@, caller@, amount),
            final(self)@ == after_debit(old(self)@, caller@, amount),
    {
        let i = match self.find(caller) {
            Some(i) => i,
            None => return Err(LedgerError::NotFound),
        };
        let b = self.accounts[i].balance;
        if b < amount {
            return Err(LedgerError::InsufficientBalance);
        }
        proof {
            lemma_with_balance(self@, caller@, (b - amount) as u64);
        }
        self.set_balance(i, b - amount);
        Ok(())
    }

    /// Moves `amount` from `sender` to `receiver` in one step. Fails,
    /// changing nothing, where either has no account, the sender holds less
    /// than `amount`, or the receiver's balance would not fit in a `u64`.
    /// A transfer to oneself is checked and then changes nothing.
    pub fn transfer(&mut self, sender: &Identity, receiver: &Identity, amount: u64) -> (r: Result<(), LedgerError>)
        requires
            old(self).wf(),
        ensures
            final(self).wf(),
            r == transfer_outcome(old(self)@, sender@, receiver@, amount),
            final(self)@ == after_transfer(old(self)@, sender@, receiver@, amount),
    {
        let si = match self.find(sender) {
            Some(i) => i,
            None => return Err(LedgerError::NotFound),
        };
        let ri = match self.find(receiver) {
            Some(i) => i,
            None => return Err(LedgerError::NotFound),
        };
        let sb = self.accounts[si].balance;
        if sb < amount {
            return Err(LedgerError::InsufficientBalance);
        }
        if si == ri {
            return Ok(());
        }
        let rb = self.accounts[ri].balance;
        if rb > u64::MAX - amount {
            return Err(LedgerError::Overflow);
        }
        proof {
            let s = self@;
            lemma_with_balance(s, sender@, (sb - amount) as u64);
            lemma_with_balance(with_balance(s, sender@, (sb - amount) as u64), receiver@, (rb + amount) as u64);
        }
        self.set_balance(si, sb - amount);
        self.set_balance(ri, rb + amount);
        Ok(())
    }
}

} // verus!
