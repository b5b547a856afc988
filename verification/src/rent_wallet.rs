//! The wallet: balances kept per address, which its administrator credits
//! and debits unless the wallet is paused.

use vstd::prelude::*;
use crate::address::Address;

verus! {

/// Names the slots of the wallet's store.
#[derive(Clone, Copy, Debug, PartialEq, Eq)]
pub enum DataKey {
    /// The administrator.
    Admin,
    /// The table of balances.
    Balances,
    /// Whether the wallet is paused.
    Paused,
}

/// Why the wallet rejected a call. A rejected call changes nothing.
#[derive(Clone, Copy, Debug, PartialEq, Eq)]
pub enum WalletError {
    /// The wallet already has an administrator.
    AlreadyInitialized,
    /// The wallet has no administrator yet.
    AdminNotSet,
    /// The call was not authorised by the administrator.
    NotAuthorized,
    /// The wallet is paused.
    Paused,
    /// The amount must be positive.
    InvalidAmount,
    /// The balance is smaller than the amount to take from it.
    InsufficientBalance,
    /// A credit would take the balance out of the range of its type.
    BalanceOverflow,
}

impl WalletError {
    /// The text of the rejection.
    pub open spec fn spec_message(self) -> Seq<char> {
        match self {
            WalletError::AlreadyInitialized => "already initialized"@,
            WalletError::AdminNotSet => "admin not set"@,
            WalletError::NotAuthorized => "not authorized"@,
            WalletError::Paused => "contract is paused"@,
            WalletError::InvalidAmount => "amount must be positive"@,
            WalletError::InsufficientBalance => "insufficient balance"@,
            WalletError::BalanceOverflow => "balance overflow"@,
        }
    }

    /// The text of the rejection.
    pub fn message(&self) -> (text: &'static str)
        ensures
            text@ == self.spec_message(),
    {
        match self {
            WalletError::AlreadyInitialized => "already initialized",
            WalletError::AdminNotSet => "admin not set",
            WalletError::NotAuthorized => "not authorized",
            WalletError::Paused => "contract is paused",
            WalletError::InvalidAmount => "amount must be positive",
            WalletError::InsufficientBalance => "insufficient balance",
            WalletError::BalanceOverflow => "balance overflow",
        }
    }
}

/// One line of the table of balances.
#[derive(Clone, Copy)]
struct Entry {
    owner: Address,
    amount: i128,
}

/// The wallet's state as a value.
pub struct WalletView {
    /// The administrator, once the wallet is initialised.
    pub admin: Option<Address>,
    /// The balance of every address that was ever credited.
    pub balances: Map<Address, i128>,
    /// The pause flag, once it was set; a wallet without one is not paused.
    pub paused: Option<bool>,
}

impl WalletView {
    /// The balance of `user`: zero for an address without an entry.
    pub open spec fn balance_of(self, user: Address) -> i128 {
        if self.balances.contains_key(user) {
            self.balances[user]
        } else {
            0
        }
    }

    /// Whether the wallet is paused.
    pub open spec fn is_paused(self) -> bool {
        self.paused == Some(true)
    }
}

/// No address owns two lines.
spec fn distinct_owners(entries: Seq<Entry>) -> bool {
    forall|i: int, j: int|
        0 <= i < j < entries.len() ==> (#[trigger] entries[i]).owner != (#[trigger] entries[j]).owner
}

/// Whether `entries` has a line for `user`.
spec fn owns_line(entries: Seq<Entry>, user: Address) -> bool {
    exists|i: int| 0 <= i < entries.len() && (#[trigger] entries[i]).owner == user
}

/// The index of the line of `user`.
spec fn line_of(entries: Seq<Entry>, user: Address) -> int {
    choose|i: int| 0 <= i < entries.len() && (#[trigger] entries[i]).owner == user
}

/// The table as a map from owner to amount.
spec fn table(entries: Seq<Entry>) -> Map<Address, i128> {
    Map::new(
        |user: Address| owns_line(entries, user),
        |user: Address| entries[line_of(entries, user)].amount,
    )
}

/// Whether a call that `caller` authorised may change a wallet whose
/// administrator is `admin`.
pub open spec fn authorize(admin: Option<Address>, caller: Address) -> Result<(), WalletError> {
    match admin {
        None => Err(WalletError::AdminNotSet),
        Some(a) => if a == caller {
            Ok(())
        } else {
            Err(WalletError::NotAuthorized)
        },
    }
}

/// What a credit of `amount` makes of `balance`, or why it is rejected.
pub open spec fn credited_spec(paused: bool, balance: i128, amount: i128) -> Result<
    i128,
    WalletError,
> {
    if paused {
        Err(WalletError::Paused)
    } else if amount <= 0 {
        Err(WalletError::InvalidAmount)
    } else if balance + amount > i128::MAX {
        Err(WalletError::BalanceOverflow)
    } else {
        Ok((balance + amount) as i128)
    }
}

/// What a debit of `amount` makes of `balance`, or why it is rejected.
pub open spec fn debited_spec(paused: bool, balance: i128, amount: i128) -> Result<
    i128,
    WalletError,
> {
    if paused {
        Err(WalletError::Paused)
    } else if amount <= 0 {
        Err(WalletError::InvalidAmount)
    } else if balance < amount {
        Err(WalletError::InsufficientBalance)
    } else {
        Ok((balance - amount) as i128)
    }
}

/// The line at index `i` of a table without double owners is the line of
/// its owner.
proof fn lemma_line_found(entries: Seq<Entry>, i: int)
    requires
        distinct_owners(entries),
        0 <= i < entries.len(),
    ensures
        owns_line(entries, entries[i].owner),
        line_of(entries, entries[i].owner) == i,
        table(entries).contains_key(entries[i].owner),
        table(entries)[entries[i].owner] == entries[i].amount,
{
}

/// Writing `amount` into the line at index `i` sets the balance of that
/// line's owner and no other.
proof fn lemma_line_written(entries: Seq<Entry>, i: int, amount: i128)
    requires
        distinct_owners(entries),
        0 <= i < entries.len(),
    ensures
        distinct_owners(entries.update(i, Entry { owner: entries[i].owner, amount })),
        table(entries.update(i, Entry { owner: entries[i].owner, amount })) == table(
            entries,
        ).insert(entries[i].owner, amount),
{
    let user = entries[i].owner;
    let after = entries.update(i, Entry { owner: user, amount });
    assert forall|a: Address| owns_line(after, a) == owns_line(entries, a) by {
        if owns_line(after, a) {
            let k = line_of(after, a);
            assert(entries[k].owner == a);
        }
        if owns_line(entries, a) {
            let k = line_of(entries, a);
            assert(after[k].owner == a);
        }
    }
    assert forall|a: Address| #[trigger] owns_line(after, a) implies table(after)[a] == table(
        entries,
    ).insert(user, amount)[a] by {
        let k = line_of(after, a);
        assert(after[k].owner == a);
        lemma_line_found(after, k);
        assert(entries[k].owner == a);
        lemma_line_found(entries, k);
    }
    lemma_line_found(entries, i);
    assert(table(after) =~= table(entries).insert(user, amount));
}

/// A new line for an address without one sets the balance of that address
/// and no other.
proof fn lemma_line_added(entries: Seq<Entry>, user: Address, amount: i128)
    requires
        distinct_owners(entries),
        !owns_line(entries, user),
    ensures
        distinct_owners(entries.push(Entry { owner: user, amount })),
        table(entries.push(Entry { owner: user, amount })) == table(entries).insert(user, amount),
{
    let after = entries.push(Entry { owner: user, amount });
    assert forall|i: int, j: int| 0 <= i < j < after.len() implies (#[trigger] after[i]).owner != (
    #[trigger] after[j]).owner by {
        if j == entries.len() {
            assert(entries[i].owner != user);
        } else {
            assert(after[i] == entries[i] && after[j] == entries[j]);
        }
    }
    assert forall|a: Address| owns_line(after, a) == (a == user || owns_line(entries, a)) by {
        if owns_line(after, a) {
            let k = line_of(after, a);
            if k < entries.len() {
                assert(entries[k].owner == a);
            }
        }
        if owns_line(entries, a) {
            let k = line_of(entries, a);
            assert(after[k].owner == a);
        }
        if a == user {
            assert(after[entries.len() as int].owner == a);
        }
    }
    assert forall|a: Address| #[trigger] owns_line(after, a) implies table(after)[a] == table(
        entries,
    ).insert(user, amount)[a] by {
        let k = line_of(after, a);
        assert(after[k].owner == a);
        lemma_line_found(after, k);
        if k < entries.len() {
            assert(entries[k].owner == a);
            lemma_line_found(entries, k);
        }
    }
    assert(table(after) =~= table(entries).insert(user, amount));
}

/// The wallet.
pub struct RentWallet {
    admin: Option<Address>,
    entries: Vec<Entry>,
    paused: Option<bool>,
}

impl View for RentWallet {
    type V = WalletView;

    closed spec fn view(&self) -> WalletView {
        WalletView { admin: self.admin, balances: table(self.entries@), paused: self.paused }
    }
}

impl RentWallet {
    #[verifier::type_invariant]
    spec fn inv(self) -> bool {
        distinct_owners(self.entries@)
    }

    /// A wallet without administrator, without balances and without pause
    /// flag.
    pub fn new() -> (wallet: Self)
        ensures
            wallet@ == (WalletView { admin: None, balances: Map::empty(), paused: None }),
    {
        let wallet = RentWallet { admin: None, entries: Vec::new(), paused: None };
        assert(table(wallet.entries@) =~= Map::<Address, i128>::empty());
        wallet
    }

    /// The administrator, once `init` has named one.
    pub fn admin(&self) -> (admin: Option<Address>)
        ensures
            admin == self@.admin,
    {
        self.admin
    }

    /// Names the administrator. This is done once: the call is rejected
    /// exactly when the wallet has an administrator already.
    pub fn init(&mut self, admin: Address) -> (result: Result<(), WalletError>)
        ensures
            old(self)@.admin is Some ==> result == Err::<(), WalletError>(
                WalletError::AlreadyInitialized,
            ) && final(self)@ == old(self)@,
            old(self)@.admin is None ==> result is Ok && final(self)@ == (WalletView {
                admin: Some(admin),
                ..old(self)@
            }),
    {
        proof {
            use_type_invariant(&*self);
        }
        if self.admin.is_some() {
            return Err(WalletError::AlreadyInitialized);
        }
        self.admin = Some(admin);
        Ok(())
    }

    /// Whether the call may go on: the wallet has an administrator, and
    /// `caller` is the one.
    pub fn require_admin(&self, caller: &Address) -> (result: Result<(), WalletError>)
        ensures
            result == authorize(self@.admin, *caller),
    {
        match &self.admin {
            None => Err(WalletError::AdminNotSet),
            Some(admin) => {
                if admin.same_as(caller) {
                    Ok(())
                } else {
                    Err(WalletError::NotAuthorized)
                }
            },
        }
    }

    /// Whether the wallet is paused. A wallet that was never paused is not.
    pub fn is_paused(&self) -> (paused: bool)
        ensures
            paused == self@.is_paused(),
    {
        match self.paused {
            Some(flag) => flag,
            None => false,
        }
    }

    /// Whether the slot that `key` names holds anything.
    pub fn has(&self, key: &DataKey) -> (present: bool)
        ensures
            present == match *key {
                DataKey::Admin => self@.admin is Some,
                DataKey::Balances => self@.admin is Some,
                DataKey::Paused => self@.paused is Some,
            },
    {
        match key {
            DataKey::Admin => self.admin.is_some(),
            DataKey::Balances => self.admin.is_some(),
            DataKey::Paused => self.paused.is_some(),
        }
    }

    /// Index of the line of `user`, if there is one.
    fn find(&self, user: &Address) -> (found: Option<usize>)
        ensures
            match found {
                Some(i) => i < self.entries@.len() && self.entries@[i as int].owner == *user,
                None => !owns_line(self.entries@, *user),
            },
    {
        let mut i: usize = 0;
        while i < self.entries.len()
            invariant
                0 <= i <= self.entries.len(),
                forall|k: int| 0 <= k < i ==> (#[trigger] self.entries@[k]).owner != *user,
            decreases self.entries.len() - i,
        {
            if self.entries[i].owner.same_as(user) {
                return Some(i);
            }
            i += 1;
        }
        None
    }

    /// The balance of `user`: zero for an address that was never credited.
    /// A paused wallet still answers.
    pub fn balance(&self, user: &Address) -> (amount: i128)
        ensures
            amount == self@.balance_of(*user),
    {
        proof {
            use_type_invariant(self);
        }
        match self.find(user) {
            Some(i) => {
                proof {
                    lemma_line_found(self.entries@, i as int);
                }
                self.entries[i].amount
            },
            None => 0,
        }
    }

    /// Writes the balance of `user`.
    fn set_balance(&mut self, user: &Address, amount: i128)
        ensures
            final(self)@ == (WalletView {
                balances: old(self)@.balances.insert(*user, amount),
                ..old(self)@
            }),
    {
        proof {
            use_type_invariant(&*self);
        }
        let found = self.find(user);
        let mut entries: Vec<Entry> = Vec::new();
        std::mem::swap(&mut self.entries, &mut entries);
        let entry = Entry { owner: *user, amount };
        match found {
            Some(i) => {
                proof {
                    lemma_line_written(entries@, i as int, amount);
                }
                entries.set(i, entry);
            },
            None => {
                proof {
                    lemma_line_added(entries@, *user, amount);
                }
                entries.push(entry);
            },
        }
        self.entries = entries;
    }

    /// The balance that a credit of `amount` makes of `balance`. A paused
    /// wallet takes no credit, the amount must be positive, and the new
    /// balance must fit.
    pub fn credited(paused: bool, balance: i128, amount: i128) -> (result: Result<
        i128,
        WalletError,
    >)
        ensures
            result == credited_spec(paused, balance, amount),
    {
        if paused {
            return Err(WalletError::Paused);
        }
        if amount <= 0 {
            return Err(WalletError::InvalidAmount);
        }
        match balance.checked_add(amount) {
            Some(sum) => Ok(sum),
            None => Err(WalletError::BalanceOverflow),
        }
    }

    /// The balance that a debit of `amount` makes of `balance`. A paused
    /// wallet gives nothing out, the amount must be positive, and the
    /// balance must cover it.
    pub fn debited(paused: bool, balance: i128, amount: i128) -> (result: Result<
        i128,
        WalletError,
    >)
        ensures
            result == debited_spec(paused, balance, amount),
    {
        if paused {
            return Err(WalletError::Paused);
        }
        if amount <= 0 {
            return Err(WalletError::InvalidAmount);
        }
        if balance < amount {
            return Err(WalletError::InsufficientBalance);
        }
        Ok(balance - amount)
    }

    /// Adds `amount` to the balance of `user` and returns the new balance.
    /// Only the administrator may do this, and not while the wallet is
    /// paused. No other balance changes.
    pub fn credit(&mut self, caller: &Address, user: &Address, amount: i128) -> (result: Result<
        i128,
        WalletError,
    >)
        ensures
            result == change_outcome(
                old(self)@,
                *caller,
                credited_spec(old(self)@.is_paused(), old(self)@.balance_of(*user), amount),
            ),
            final(self)@ == after_change(old(self)@, *user, result),
    {
        match self.require_admin(caller) {
            Err(e) => {
                return Err(e);
            },
            Ok(()) => {},
        }
        let current = self.balance(user);
        match RentWallet::credited(self.is_paused(), current, amount) {
            Err(e) => Err(e),
            Ok(balance) => {
                self.set_balance(user, balance);
                Ok(balance)
            },
        }
    }

    /// Takes `amount` from the balance of `user` and returns the new
    /// balance. Only the administrator may do this, and not while the wallet
    /// is paused; the balance must cover the amount. No other balance
    /// changes.
    pub fn debit(&mut self, caller: &Address, user: &Address, amount: i128) -> (result: Result<
        i128,
        WalletError,
    >)
        ensures
            result == change_outcome(
                old(self)@,
                *caller,
                debited_spec(old(self)@.is_paused(), old(self)@.balance_of(*user), amount),
            ),
            final(self)@ == after_change(old(self)@, *user, result),
    {
        match self.require_admin(caller) {
            Err(e) => {
                return Err(e);
            },
            Ok(()) => {},
        }
        let current = self.balance(user);
        match RentWallet::debited(self.is_paused(), current, amount) {
            Err(e) => Err(e),
            Ok(balance) => {
                self.set_balance(user, balance);
                Ok(balance)
            },
        }
    }

    /// Hands the wallet to `new_admin`. Only the administrator may do this.
    pub fn set_admin(&mut self, caller: &Address, new_admin: Address) -> (result: Result<
        (),
        WalletError,
    >)
        ensures
            result == authorize(old(self)@.admin, *caller),
            result is Err ==> final(self)@ == old(self)@,
            result is Ok ==> final(self)@ == (WalletView {
                admin: Some(new_admin),
                ..old(self)@
            }),
    {
        proof {
            use_type_invariant(&*self);
        }
        match self.require_admin(caller) {
            Err(e) => Err(e),
            Ok(()) => {
                self.admin = Some(new_admin);
                Ok(())
            },
        }
    }

    /// Pauses the wallet: until `unpause`, credits and debits are rejected.
    /// Only the administrator may do this.
    pub fn pause(&mut self, caller: &Address) -> (result: Result<(), WalletError>)
        ensures
            result == authorize(old(self)@.admin, *caller),
            result is Err ==> final(self)@ == old(self)@,
            result is Ok ==> final(self)@ == (WalletView { paused: Some(true), ..old(self)@ }),
    {
        proof {
            use_type_invariant(&*self);
        }
        match self.require_admin(caller) {
            Err(e) => Err(e),
            Ok(()) => {
                self.paused = Some(true);
                Ok(())
            },
        }
    }

    /// Ends a pause. Only the administrator may do this.
    pub fn unpause(&mut self, caller: &Address) -> (result: Result<(), WalletError>)
        ensures
            result == authorize(old(self)@.admin, *caller),
            result is Err ==> final(self)@ == old(self)@,
            result is Ok ==> final(self)@ == (WalletView { paused: Some(false), ..old(self)@ }),
    {
        proof {
            use_type_invariant(&*self);
        }
        match self.require_admin(caller) {
            Err(e) => Err(e),
            Ok(()) => {
                self.paused = Some(false);
                Ok(())
            },
        }
    }
}

/// The outcome of a credit or debit: a call that the administrator did not
/// authorise is rejected for that; any other call ends as its rule says.
pub open spec fn change_outcome(
    state: WalletView,
    caller: Address,
    rule: Result<i128, WalletError>,
) -> Result<i128, WalletError> {
    match authorize(state.admin, caller) {
        Err(e) => Err(e),
        Ok(_) => rule,
    }
}

/// The wallet after a credit or debit: an accepted call writes the new
/// balance of `user`, a rejected one changes nothing.
pub open spec fn after_change(
    state: WalletView,
    user: Address,
    result: Result<i128, WalletError>,
) -> WalletView {
    match result {
        Ok(balance) => WalletView { balances: state.balances.insert(user, balance), ..state },
        Err(_) => state,
    }
}

} // verus!
