//! A multi-token ledger: balances per owner and token id, allowances per owner,
//! spender and token id, operators per owner, and the log of emitted events.

use vstd::prelude::*;
use crate::wide::{two128, two256, U256};
use vstd::arithmetic::div_mod::*;

verus! {

/// A 160-bit account address: `hi * 2^128 + lo`.
#[derive(Clone, Copy, Debug, PartialEq, Eq, Structural)]
pub struct Address {
    pub hi: u32,
    pub lo: u128,
}

impl Address {
    /// The all-zero address.
    pub fn zero() -> (r: Address)
        ensures
            r == (Address { hi: 0, lo: 0 }),
    {
        Address { hi: 0, lo: 0 }
    }
}

/// The key of a storage slot: up to two addresses and a token id.
#[derive(Clone, Copy, Debug, PartialEq, Eq, Structural)]
pub struct Key {
    pub a: Address,
    pub b: Address,
    pub id: U256,
}

/// The value stored under `k` in the entries `s`: that of the last entry with key `k`,
/// or 0 when there is none.
pub open spec fn find(s: Seq<(Key, U256)>, k: Key) -> U256
    decreases s.len(),
{
    if s.len() == 0 {
        U256 { hi: 0, lo: 0 }
    } else if s.last().0 == k {
        s.last().1
    } else {
        find(s.drop_last(), k)
    }
}

/// Replacing the last entry for a key changes the value of that key alone.
proof fn lemma_find_update(s: Seq<(Key, U256)>, i: int, k: Key, v: U256, k2: Key)
    requires
        0 <= i < s.len(),
        s[i].0 == k,
        forall|j: int| i < j < s.len() ==> s[j].0 != k,
    ensures
        find(s.update(i, (k, v)), k2) == if k2 == k { v } else { find(s, k2) },
    decreases s.len(),
{
    let t = s.update(i, (k, v));
    if i == s.len() - 1 {
        assert(t.drop_last() =~= s.drop_last());
    } else {
        assert(t.drop_last() =~= s.drop_last().update(i, (k, v)));
        lemma_find_update(s.drop_last(), i, k, v, k2);
    }
}

/// Appending an entry for a key changes the value of that key alone.
proof fn lemma_find_push(s: Seq<(Key, U256)>, k: Key, v: U256, k2: Key)
    ensures
        find(s.push((k, v)), k2) == if k2 == k { v } else { find(s, k2) },
{
    assert(s.push((k, v)).drop_last() =~= s);
}

/// A key that no entry holds has the value 0.
proof fn lemma_find_absent(s: Seq<(Key, U256)>, k: Key)
    requires
        forall|j: int| 0 <= j < s.len() ==> s[j].0 != k,
    ensures
        find(s, k) == (U256 { hi: 0, lo: 0 }),
    decreases s.len(),
{
    if s.len() > 0 {
        lemma_find_absent(s.drop_last(), k);
    }
}

/// The last entry for a key holds its value.
proof fn lemma_find_last(s: Seq<(Key, U256)>, i: int, k: Key)
    requires
        0 <= i < s.len(),
        s[i].0 == k,
        forall|j: int| i < j < s.len() ==> s[j].0 != k,
    ensures
        find(s, k) == s[i].1,
    decreases s.len(),
{
    if i < s.len() - 1 {
        lemma_find_last(s.drop_last(), i, k);
    }
}

/// A storage table from keys to 256-bit values, 0 where nothing was written.
pub struct Table {
    entries: Vec<(Key, U256)>,
}

impl Table {
    /// The value stored under `k`.
    pub closed spec fn get_spec(self, k: Key) -> U256 {
        find(self.entries@, k)
    }

    /// An empty table.
    pub fn new() -> (t: Table)
        ensures
            forall|k: Key| #[trigger] t.get_spec(k) == (U256 { hi: 0, lo: 0 }),
    {
        let t = Table { entries: Vec::new() };
        proof {
            assert forall|k: Key| #[trigger] t.get_spec(k) == (U256 { hi: 0, lo: 0 }) by {
                lemma_find_absent(t.entries@, k);
            }
        }
        t
    }

    /// The index of the last entry with key `k`, if any.
    fn position(&self, k: &Key) -> (r: Option<usize>)
        ensures
            match r {
                Some(i) => i < self.entries@.len() && self.entries@[i as int].0 == *k && forall|j: int|
                    i < j < self.entries@.len() ==> self.entries@[j].0 != *k,
                None => forall|j: int| 0 <= j < self.entries@.len() ==> self.entries@[j].0 != *k,
            },
    {
        let mut i = self.entries.len();
        while i > 0
            invariant
                i <= self.entries@.len(),
                forall|j: int| i <= j < self.entries@.len() ==> self.entries@[j].0 != *k,
            decreases i,
        {
            i = i - 1;
            if self.entries[i].0 == *k {
                return Some(i);
            }
        }
        None
    }

    /// The value stored under `k`.
    pub fn get(&self, k: &Key) -> (r: U256)
        ensures
            r == self.get_spec(*k),
    {
        match self.position(k) {
            Some(i) => {
                proof {
                    lemma_find_last(self.entries@, i as int, *k);
                }
                self.entries[i].1
            },
            None => {
                proof {
                    lemma_find_absent(self.entries@, *k);
                }
                U256 { hi: 0, lo: 0 }
            },
        }
    }

    /// Stores `v` under `k`.
    pub fn set(&mut self, k: Key, v: U256)
        ensures
            forall|k2: Key| #[trigger] final(self).get_spec(k2) == if k2 == k {
                v
            } else {
                old(self).get_spec(k2)
            },
    {
        match self.position(&k) {
            Some(i) => {
                let ghost s = self.entries@;
                self.entries.set(i, (k, v));
                proof {
                    assert(self.entries@ == s.update(i as int, (k, v)));
                    assert forall|k2: Key| #[trigger] find(self.entries@, k2) == if k2 == k {
                        v
                    } else {
                        find(s, k2)
                    } by {
                        lemma_find_update(s, i as int, k, v, k2);
                    }
                }
            },
            None => {
                let ghost s = self.entries@;
                self.entries.push((k, v));
                proof {
                    assert forall|k2: Key| #[trigger] find(self.entries@, k2) == if k2 == k {
                        v
                    } else {
                        find(s, k2)
                    } by {
                        lemma_find_push(s, k, v, k2);
                    }
                }
            },
        }
    }
}

/// An event recorded by the ledger.
#[derive(Clone, Copy, Debug)]
pub enum Event {
    /// `amount` of token `id` moved from `from` to `to`, at the request of `caller`.
    Transfer { caller: Address, from: Address, to: Address, id: U256, amount: U256 },
    /// `owner` set `operator`'s standing to `approved`.
    OperatorSet { owner: Address, operator: Address, approved: bool },
    /// `owner` let `spender` use `amount` of token `id`.
    Approval { owner: Address, spender: Address, id: U256, amount: U256 },
}

/// The errors the ledger declares.
#[derive(Clone, Copy, Debug)]
pub enum Erc20Error {
    /// `from` holds `have` where `want` was asked for.
    InsufficientBalance { from: Address, have: U256, want: U256 },
    /// `spender` may use `have` of `owner`'s tokens where `want` was asked for.
    InsufficientAllowance { owner: Address, spender: Address, have: U256, want: U256 },
}

/// The slot of `owner`'s balance of token `id`.
pub open spec fn balance_key(owner: Address, id: U256) -> Key {
    Key { a: owner, b: Address { hi: 0, lo: 0 }, id }
}

/// The slot of what `spender` may use of `owner`'s token `id`.
pub open spec fn allowance_key(owner: Address, spender: Address, id: U256) -> Key {
    Key { a: owner, b: spender, id }
}

/// The slot of whether `operator` acts for `owner`.
pub open spec fn operator_key(owner: Address, operator: Address) -> Key {
    Key { a: owner, b: operator, id: U256 { hi: 0, lo: 0 } }
}

/// `new` holds `amount` more of token `id` for `owner` than `old`, every other balance is
/// the same, and so are all allowances and operators.
pub open spec fn credited(old: Erc6909, new: Erc6909, owner: Address, id: U256, amount: U256) -> bool {
    &&& forall|o: Address, i: U256| #[trigger] new.balance(o, i).val() == if o == owner && i == id {
        old.balance(o, i).val() + amount.val()
    } else {
        old.balance(o, i).val()
    }
    &&& same_rights(old, new)
}

/// `new` holds `amount` less of token `id` for `owner` than `old`, every other balance is
/// the same, and so are all allowances and operators.
pub open spec fn debited(old: Erc6909, new: Erc6909, owner: Address, id: U256, amount: U256) -> bool {
    &&& forall|o: Address, i: U256| #[trigger] new.balance(o, i).val() == if o == owner && i == id {
        old.balance(o, i).val() - amount.val()
    } else {
        old.balance(o, i).val()
    }
    &&& same_rights(old, new)
}

/// `amount` of token `id` has moved from `from` to `to` (nothing changes when they are
/// the same account), and every other balance is the same.
pub open spec fn moved(old: Erc6909, new: Erc6909, from: Address, to: Address, id: U256, amount: U256) -> bool {
    forall|o: Address, i: U256| #[trigger] new.balance(o, i).val() == if i == id && from != to && o == from {
        old.balance(o, i).val() - amount.val()
    } else if i == id && from != to && o == to {
        old.balance(o, i).val() + amount.val()
    } else {
        old.balance(o, i).val()
    }
}

/// All allowances and operators are the same in both ledgers.
pub open spec fn same_rights(old: Erc6909, new: Erc6909) -> bool {
    &&& forall|o: Address, s: Address, i: U256| #[trigger] new.allowance_of(o, s, i) == old.allowance_of(o, s, i)
    &&& forall|o: Address, p: Address| #[trigger] new.operator(o, p) == old.operator(o, p)
}

/// The largest amount, 2^256 - 1: an allowance of it is never spent.
pub open spec fn max_amount() -> U256 {
    U256 { hi: 0xffff_ffff_ffff_ffff_ffff_ffff_ffff_ffff, lo: 0xffff_ffff_ffff_ffff_ffff_ffff_ffff_ffff }
}

/// Minting an amount and then burning the same amount of the same token from the same
/// owner gives back the storage before the mint.
pub proof fn law_mint_then_burn(l0: Erc6909, l1: Erc6909, l2: Erc6909, owner: Address, id: U256, amount: U256)
    requires
        credited(l0, l1, owner, id, amount),
        debited(l1, l2, owner, id, amount),
    ensures
        l2.same_storage(l0),
{
    assert forall|o: Address, i: U256| #[trigger] l2.balance(o, i) == l0.balance(o, i) by {
        assert(l2.balance(o, i).val() == l0.balance(o, i).val());
        lemma_val_injective(l2.balance(o, i), l0.balance(o, i));
    }
}

/// Burning an amount and then minting the same amount of the same token to the same
/// owner gives back the storage before the burn.
pub proof fn law_burn_then_mint(l0: Erc6909, l1: Erc6909, l2: Erc6909, owner: Address, id: U256, amount: U256)
    requires
        debited(l0, l1, owner, id, amount),
        credited(l1, l2, owner, id, amount),
    ensures
        l2.same_storage(l0),
{
    assert forall|o: Address, i: U256| #[trigger] l2.balance(o, i) == l0.balance(o, i) by {
        assert(l2.balance(o, i).val() == l0.balance(o, i).val());
        lemma_val_injective(l2.balance(o, i), l0.balance(o, i));
    }
}

/// A move keeps the total that the two accounts hold of the token.
pub proof fn law_move_conserves(old: Erc6909, new: Erc6909, from: Address, to: Address, id: U256, amount: U256)
    requires
        moved(old, new, from, to, id, amount),
    ensures
        new.balance(from, id).val() + new.balance(to, id).val() == old.balance(from, id).val()
            + old.balance(to, id).val(),
{
}

/// Two 256-bit numbers with the same value are the same.
proof fn lemma_val_injective(a: U256, b: U256)
    requires
        a.val() == b.val(),
    ensures
        a == b,
{
    lemma_fundamental_div_mod_converse(a.val(), two128(), a.hi as int, a.lo as int);
    lemma_fundamental_div_mod_converse(b.val(), two128(), b.hi as int, b.lo as int);
}

/// A multi-token ledger with 256-bit amounts.
pub struct Erc6909 {
    balances: Table,
    allowances: Table,
    operators: Table,
    events: Vec<Event>,
}

impl Erc6909 {
    /// `owner`'s balance of token `id`.
    pub closed spec fn balance(self, owner: Address, id: U256) -> U256 {
        self.balances.get_spec(balance_key(owner, id))
    }

    /// What `spender` may use of `owner`'s token `id`.
    pub closed spec fn allowance_of(self, owner: Address, spender: Address, id: U256) -> U256 {
        self.allowances.get_spec(allowance_key(owner, spender, id))
    }

    /// Whether `operator` acts for `owner`.
    pub closed spec fn operator(self, owner: Address, operator: Address) -> bool {
        self.operators.get_spec(operator_key(owner, operator)).val() != 0
    }

    /// The events emitted so far, oldest first.
    pub closed spec fn log(self) -> Seq<Event> {
        self.events@
    }

    /// Balances and allowances and operators are the same in both ledgers.
    pub open spec fn same_storage(self, other: Erc6909) -> bool {
        &&& forall|o: Address, i: U256| #[trigger] self.balance(o, i) == other.balance(o, i)
        &&& forall|o: Address, s: Address, i: U256| #[trigger] self.allowance_of(o, s, i)
            == other.allowance_of(o, s, i)
        &&& forall|o: Address, p: Address| #[trigger] self.operator(o, p) == other.operator(o, p)
    }

    /// An empty ledger.
    pub fn new() -> (r: Erc6909)
        ensures
            forall|o: Address, i: U256| #[trigger] r.balance(o, i).val() == 0,
            forall|o: Address, s: Address, i: U256| #[trigger] r.allowance_of(o, s, i).val() == 0,
            forall|o: Address, p: Address| !#[trigger] r.operator(o, p),
            r.log().len() == 0,
    {
        Erc6909 { balances: Table::new(), allowances: Table::new(), operators: Table::new(), events: Vec::new() }
    }

    /// `owner`'s balance of token `id`.
    #[allow(non_snake_case)]
    pub fn balanceOf(&self, owner: Address, id: U256) -> (r: U256)
        ensures
            r == self.balance(owner, id),
    {
        self.balances.get(&Key { a: owner, b: Address::zero(), id })
    }

    /// What `spender` may use of `owner`'s token `id`.
    pub fn allowance(&self, owner: Address, spender: Address, id: U256) -> (r: U256)
        ensures
            r == self.allowance_of(owner, spender, id),
    {
        self.allowances.get(&Key { a: owner, b: spender, id })
    }

    /// Whether `operator` acts for `owner`.
    #[allow(non_snake_case)]
    pub fn isOperator(&self, owner: Address, operator: Address) -> (r: bool)
        ensures
            r == self.operator(owner, operator),
    {
        !self.operators.get(&Key { a: owner, b: operator, id: U256 { hi: 0, lo: 0 } }).is_zero()
    }

    /// Adds `amount` of token `id` to `receiver`'s balance (which must not pass
    /// 2^256 - 1), and records a transfer from the zero address to `receiver` made by
    /// the caller `sender`.
    pub fn mint(&mut self, sender: Address, receiver: Address, id: U256, amount: U256) -> (r: Result<bool, Vec<u8>>)
        requires
            old(self).balance(receiver, id).val() + amount.val() < two256(),
        ensures
            r == Ok::<bool, Vec<u8>>(true),
            credited(*old(self), *final(self), receiver, id, amount),
            final(self).log() == old(self).log().push(
                Event::Transfer { caller: sender, from: Address { hi: 0, lo: 0 }, to: receiver, id, amount },
            ),
    {
        let k = Key { a: receiver, b: Address::zero(), id };
        let initial_amount = self.balances.get(&k);
        let final_amount = initial_amount.add(amount);
        self.balances.set(k, final_amount);
        self.events.push(Event::Transfer { caller: sender, from: Address::zero(), to: receiver, id, amount });
        proof {
            assert forall|o: Address, i: U256| #[trigger] self.balance(o, i).val() == if o == receiver && i == id {
                old(self).balance(o, i).val() + amount.val()
            } else {
                old(self).balance(o, i).val()
            } by {
                assert(self.balances.get_spec(balance_key(o, i)) == if balance_key(o, i) == k {
                    final_amount
                } else {
                    old(self).balances.get_spec(balance_key(o, i))
                });
            }
        }
        Ok(true)
    }

    /// Takes `amount` of token `id` from `owner`'s balance and records a transfer from
    /// `owner` to the zero address made by the caller `sender`; when the balance is
    /// smaller than `amount`, returns an empty error and changes nothing.
    pub fn burn(&mut self, sender: Address, owner: Address, id: U256, amount: U256) -> (r: Result<bool, Vec<u8>>)
        ensures
            amount.val() <= old(self).balance(owner, id).val() ==> {
                &&& r == Ok::<bool, Vec<u8>>(true)
                &&& debited(*old(self), *final(self), owner, id, amount)
                &&& final(self).log() == old(self).log().push(
                    Event::Transfer { caller: sender, from: owner, to: Address { hi: 0, lo: 0 }, id, amount },
                )
            },
            amount.val() > old(self).balance(owner, id).val() ==> {
                &&& r matches Err(e) && e@.len() == 0
                &&& *final(self) == *old(self)
            },
    {
        let k = Key { a: owner, b: Address::zero(), id };
        let initial_amount = self.balances.get(&k);
        if initial_amount.lt(amount) {
            return Err(Vec::new());
        }
        let final_amount = initial_amount.sub(amount);
        self.balances.set(k, final_amount);
        self.events.push(Event::Transfer { caller: sender, from: owner, to: Address::zero(), id, amount });
        proof {
            assert forall|o: Address, i: U256| #[trigger] self.balance(o, i).val() == if o == owner && i == id {
                old(self).balance(o, i).val() - amount.val()
            } else {
                old(self).balance(o, i).val()
            } by {
                assert(self.balances.get_spec(balance_key(o, i)) == if balance_key(o, i) == k {
                    final_amount
                } else {
                    old(self).balances.get_spec(balance_key(o, i))
                });
            }
        }
        Ok(true)
    }

    /// Moves `amount` of token `id` from `from`'s balance to `to`'s in the balance table.
    fn move_balance(&mut self, from: Address, to: Address, id: U256, amount: U256)
        requires
            amount.val() <= old(self).balance(from, id).val(),
            from != to ==> old(self).balance(to, id).val() + amount.val() < two256(),
        ensures
            moved(*old(self), *final(self), from, to, id, amount),
            final(self).allowances == old(self).allowances,
            final(self).operators == old(self).operators,
            final(self).events == old(self).events,
    {
        let fk = Key { a: from, b: Address::zero(), id };
        let fb = self.balances.get(&fk);
        let nf = fb.sub(amount);
        self.balances.set(fk, nf);
        let ghost mid = self.balances;
        let tk = Key { a: to, b: Address::zero(), id };
        let tb = self.balances.get(&tk);
        proof {
            assert(mid.get_spec(balance_key(to, id)) == if balance_key(to, id) == fk {
                nf
            } else {
                old(self).balances.get_spec(balance_key(to, id))
            });
        }
        let nt = tb.add(amount);
        self.balances.set(tk, nt);
        proof {
            assert forall|o: Address, i: U256| #[trigger] self.balance(o, i).val() == if i == id && from != to && o == from {
                old(self).balance(o, i).val() - amount.val()
            } else if i == id && from != to && o == to {
                old(self).balance(o, i).val() + amount.val()
            } else {
                old(self).balance(o, i).val()
            } by {
                assert(mid.get_spec(balance_key(o, i)) == if balance_key(o, i) == fk {
                    nf
                } else {
                    old(self).balances.get_spec(balance_key(o, i))
                });
                assert(self.balances.get_spec(balance_key(o, i)) == if balance_key(o, i) == tk {
                    nt
                } else {
                    mid.get_spec(balance_key(o, i))
                });
            }
        }
    }

    /// Moves `amount` of token `id` from the caller `sender` to `receiver` and records the
    /// transfer; when `sender` holds less than `amount`, returns an empty error and
    /// changes nothing. `receiver`'s balance must not pass 2^256 - 1.
    pub fn transfer(&mut self, sender: Address, receiver: Address, id: U256, amount: U256) -> (r: Result<bool, Vec<u8>>)
        requires
            amount.val() <= old(self).balance(sender, id).val() && sender != receiver
                ==> old(self).balance(receiver, id).val() + amount.val() < two256(),
        ensures
            amount.val() <= old(self).balance(sender, id).val() ==> {
                &&& r == Ok::<bool, Vec<u8>>(true)
                &&& moved(*old(self), *final(self), sender, receiver, id, amount)
                &&& same_rights(*old(self), *final(self))
                &&& final(self).log() == old(self).log().push(
                    Event::Transfer { caller: sender, from: sender, to: receiver, id, amount },
                )
            },
            amount.val() > old(self).balance(sender, id).val() ==> {
                &&& r matches Err(e) && e@.len() == 0
                &&& *final(self) == *old(self)
            },
    {
        let b = self.balances.get(&Key { a: sender, b: Address::zero(), id });
        if b.lt(amount) {
            return Err(Vec::new());
        }
        self.move_balance(sender, receiver, id, amount);
        let ghost mid = *self;
        self.events.push(Event::Transfer { caller: sender, from: sender, to: receiver, id, amount });
        proof {
            assert forall|o: Address, i: U256| #[trigger] self.balance(o, i) == mid.balance(o, i) by {}
            assert forall|o: Address, s: Address, i: U256| #[trigger] self.allowance_of(o, s, i)
                == old(self).allowance_of(o, s, i) by {}
            assert forall|o: Address, p: Address| #[trigger] self.operator(o, p) == old(self).operator(o, p) by {}
        }
        Ok(true)
    }

    /// Moves `value` of token `id` from `from` to `to` at the request of `sender`, and
    /// records the transfer. Unless `sender` is `from` or one of its operators, `sender`
    /// needs an allowance of at least `value`, which is reduced by `value` unless it is
    /// 2^256 - 1; otherwise `InsufficientAllowance`. When `from` holds less than `value`,
    /// `InsufficientBalance`. An error changes nothing. `to`'s balance must not pass
    /// 2^256 - 1.
    pub fn transfer_from(&mut self, sender: Address, from: Address, to: Address, id: U256, value: U256) -> (r: Result<bool, Erc20Error>)
        requires
            (sender == from || old(self).operator(from, sender) || value.val() <= old(self).allowance_of(
                from,
                sender,
                id,
            ).val()) && value.val() <= old(self).balance(from, id).val() && from != to
                ==> old(self).balance(to, id).val() + value.val() < two256(),
        ensures
            ({
                let spender = sender != from && !old(self).operator(from, sender);
                let allowed = old(self).allowance_of(from, sender, id);
                let have = old(self).balance(from, id);
                &&& spender && value.val() > allowed.val() ==> {
                    &&& r == Err::<bool, Erc20Error>(
                        Erc20Error::InsufficientAllowance { owner: from, spender: sender, have: allowed, want: value },
                    )
                    &&& *final(self) == *old(self)
                }
                &&& !(spender && value.val() > allowed.val()) && value.val() > have.val() ==> {
                    &&& r == Err::<bool, Erc20Error>(
                        Erc20Error::InsufficientBalance { from, have, want: value },
                    )
                    &&& *final(self) == *old(self)
                }
                &&& !(spender && value.val() > allowed.val()) && value.val() <= have.val() ==> {
                    &&& r == Ok::<bool, Erc20Error>(true)
                    &&& moved(*old(self), *final(self), from, to, id, value)
                    &&& forall|o: Address, s: Address, i: U256| #[trigger] final(self).allowance_of(o, s, i).val()
                        == if o == from && s == sender && i == id && spender && allowed != max_amount() {
                        allowed.val() - value.val()
                    } else {
                        old(self).allowance_of(o, s, i).val()
                    }
                    &&& forall|o: Address, p: Address| #[trigger] final(self).operator(o, p) == old(self).operator(o, p)
                    &&& final(self).log() == old(self).log().push(
                        Event::Transfer { caller: sender, from, to, id, amount: value },
                    )
                }
            }),
    {
        let spender = sender != from && !self.isOperator(from, sender);
        let ak = Key { a: from, b: sender, id };
        let allowed = self.allowances.get(&ak);
        if spender && allowed.lt(value) {
            return Err(Erc20Error::InsufficientAllowance { owner: from, spender: sender, have: allowed, want: value });
        }
        let have = self.balances.get(&Key { a: from, b: Address::zero(), id });
        if have.lt(value) {
            return Err(Erc20Error::InsufficientBalance { from, have, want: value });
        }
        let ghost before = *self;
        let unlimited = allowed.same(U256 { hi: 0xffff_ffff_ffff_ffff_ffff_ffff_ffff_ffff, lo: 0xffff_ffff_ffff_ffff_ffff_ffff_ffff_ffff });
        proof {
            if allowed == max_amount() {
                assert(unlimited);
            }
            if unlimited {
                lemma_val_injective(allowed, max_amount());
            }
        }
        if spender && !unlimited {
            let rest = allowed.sub(value);
            self.allowances.set(ak, rest);
            proof {
                assert forall|o: Address, s: Address, i: U256| #[trigger] self.allowance_of(o, s, i).val()
                    == if o == from && s == sender && i == id {
                    allowed.val() - value.val()
                } else {
                    old(self).allowance_of(o, s, i).val()
                } by {
                    assert(self.allowances.get_spec(allowance_key(o, s, i)) == if allowance_key(o, s, i) == ak {
                        rest
                    } else {
                        old(self).allowances.get_spec(allowance_key(o, s, i))
                    });
                }
            }
        }
        let ghost mid = *self;
        proof {
            assert forall|o: Address, i: U256| #[trigger] mid.balance(o, i) == before.balance(o, i) by {}
        }
        self.move_balance(from, to, id, value);
        let ghost moved_state = *self;
        self.events.push(Event::Transfer { caller: sender, from, to, id, amount: value });
        proof {
            assert forall|o: Address, i: U256| #[trigger] self.balance(o, i) == moved_state.balance(o, i) by {}
            assert forall|o: Address, s: Address, i: U256| #[trigger] self.allowance_of(o, s, i)
                == mid.allowance_of(o, s, i) by {}
            assert forall|o: Address, p: Address| #[trigger] self.operator(o, p) == old(self).operator(o, p) by {}
        }
        Ok(true)
    }

    /// Lets `spender` use `amount` of the caller `sender`'s token `id`, and records the
    /// approval.
    pub fn approve(&mut self, sender: Address, spender: Address, id: U256, amount: U256) -> (r: Result<bool, Vec<u8>>)
        ensures
            r == Ok::<bool, Vec<u8>>(true),
            forall|o: Address, i: U256| #[trigger] final(self).balance(o, i) == old(self).balance(o, i),
            forall|o: Address, s: Address, i: U256| #[trigger] final(self).allowance_of(o, s, i)
                == if o == sender && s == spender && i == id {
                amount
            } else {
                old(self).allowance_of(o, s, i)
            },
            forall|o: Address, p: Address| #[trigger] final(self).operator(o, p) == old(self).operator(o, p),
            final(self).log() == old(self).log().push(
                Event::Approval { owner: sender, spender, id, amount },
            ),
    {
        let k = Key { a: sender, b: spender, id };
        self.allowances.set(k, amount);
        self.events.push(Event::Approval { owner: sender, spender, id, amount });
        proof {
            assert forall|o: Address, s: Address, i: U256| #[trigger] self.allowance_of(o, s, i)
                == if o == sender && s == spender && i == id {
                amount
            } else {
                old(self).allowance_of(o, s, i)
            } by {
                assert(self.allowances.get_spec(allowance_key(o, s, i)) == if allowance_key(o, s, i) == k {
                    amount
                } else {
                    old(self).allowances.get_spec(allowance_key(o, s, i))
                });
            }
        }
        Ok(true)
    }

    /// Sets whether `operator` acts for the caller `sender`, and records it.
    #[allow(non_snake_case)]
    pub fn setOperator(&mut self, sender: Address, operator: Address, approved: bool) -> (r: Result<bool, Erc20Error>)
        ensures
            r == Ok::<bool, Erc20Error>(true),
            forall|o: Address, i: U256| #[trigger] final(self).balance(o, i) == old(self).balance(o, i),
            forall|o: Address, s: Address, i: U256| #[trigger] final(self).allowance_of(o, s, i)
                == old(self).allowance_of(o, s, i),
            forall|o: Address, p: Address| #[trigger] final(self).operator(o, p)
                == if o == sender && p == operator {
                approved
            } else {
                old(self).operator(o, p)
            },
            final(self).log() == old(self).log().push(
                Event::OperatorSet { owner: sender, operator, approved },
            ),
    {
        let k = Key { a: sender, b: operator, id: U256 { hi: 0, lo: 0 } };
        let v = if approved { U256 { hi: 0, lo: 1 } } else { U256 { hi: 0, lo: 0 } };
        self.operators.set(k, v);
        self.events.push(Event::OperatorSet { owner: sender, operator, approved });
        proof {
            assert forall|o: Address, p: Address| #[trigger] self.operator(o, p)
                == if o == sender && p == operator {
                approved
            } else {
                old(self).operator(o, p)
            } by {
                assert(self.operators.get_spec(operator_key(o, p)) == if operator_key(o, p) == k {
                    v
                } else {
                    old(self).operators.get_spec(operator_key(o, p))
                });
            }
        }
        Ok(true)
    }

    /// Whether the ledger declares the interface `interface_id`: the interface-detection
    /// interface itself or this token interface.
    pub fn supports_interface(interface_id: u32) -> (r: bool)
        ensures
            r == (interface_id == 0x01ffc9a7 || interface_id == 0x0f632fb3),
    {
        interface_id == 0x01ffc9a7 || interface_id == 0x0f632fb3
    }

    /// The events emitted so far, oldest first.
    pub fn events(&self) -> (r: &Vec<Event>)
        ensures
            r@ == self.log(),
    {
        &self.events
    }
}

} // verus!
