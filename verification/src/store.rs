//! The shared in-memory store of user and item records.
//!
//! [`State`] owns the two record collections, keyed by caller-supplied ids.
//! Its abstract content is a [`StateView`]: one mapping from id to record per
//! collection. Creation inserts with last-writer-wins semantics; lookups of an
//! absent id yield the declared [`StoreError::NotFound`] outcome, never a
//! process fault; listings are full snapshots taken at call time.

use crate::keyed::{keyed_map, keys_distinct, lemma_keyed_map_dom, lemma_keyed_map_index,
    lemma_keyed_map_len, lemma_keyed_map_push, lemma_keyed_map_update};
use vstd::prelude::*;

verus! {

/// A user record: a caller-supplied identity and two plain fields.
#[derive(Debug)]
pub struct User {
    pub id: u8,
    pub username: String,
    pub age: u8,
}

impl User {
    /// Builds a user record from its fields.
    pub fn new(username: String, age: u8, id: u8) -> (r: Self)
        ensures
            r == (User { id, username, age }),
    {
        User { username, age, id }
    }
}

impl Clone for User {
    /// A clone is equal to the original, fields included.
    fn clone(&self) -> (r: Self)
        ensures
            r == *self,
    {
        User { id: self.id, username: self.username.clone(), age: self.age }
    }
}

impl PartialEq for User {
    /// Two user records are equal when all their fields agree.
    fn eq(&self, other: &User) -> bool {
        self.id == other.id && self.username == other.username && self.age == other.age
    }
}

impl vstd::std_specs::cmp::PartialEqSpecImpl for User {
    open spec fn obeys_eq_spec() -> bool {
        true
    }

    open spec fn eq_spec(&self, other: &User) -> bool {
        self.id == other.id && self.username@ == other.username@ && self.age == other.age
    }
}

/// An item record: a caller-supplied identity, a name, and an embedded copy
/// of its owner's user record (a snapshot, not a reference).
#[derive(Debug)]
pub struct Item {
    pub id: u8,
    pub name: String,
    pub owner: User,
}

impl Item {
    /// Builds an item record from its fields.
    pub fn new(name: String, owner: User, id: u8) -> (r: Self)
        ensures
            r == (Item { id, name, owner }),
    {
        Item { name, owner, id }
    }
}

impl Clone for Item {
    /// A clone is equal to the original, the embedded owner included.
    fn clone(&self) -> (r: Self)
        ensures
            r == *self,
    {
        Item { id: self.id, name: self.name.clone(), owner: self.owner.clone() }
    }
}

impl PartialEq for Item {
    /// Two item records are equal when all their fields agree, the embedded
    /// owner included.
    fn eq(&self, other: &Item) -> bool {
        self.id == other.id && self.name == other.name && self.owner == other.owner
    }
}

impl vstd::std_specs::cmp::PartialEqSpecImpl for Item {
    open spec fn obeys_eq_spec() -> bool {
        true
    }

    open spec fn eq_spec(&self, other: &Item) -> bool {
        self.id == other.id && self.name@ == other.name@ && self.owner.id == other.owner.id
            && self.owner.username@ == other.owner.username@ && self.owner.age == other.owner.age
    }
}

/// The declared failure outcome of a point lookup.
#[derive(Clone, Copy, Debug, PartialEq, Eq, Structural)]
pub enum StoreError {
    /// The requested id is absent from the relevant collection.
    NotFound,
}

/// The key under which a user record is stored: its own id.
pub open spec fn by_user_id() -> spec_fn(User) -> u8 {
    |u: User| u.id
}

/// The key under which an item record is stored: its own id.
pub open spec fn by_item_id() -> spec_fn(Item) -> u8 {
    |i: Item| i.id
}

/// The abstract content of the store: two mappings keyed by id.
pub ghost struct StateView {
    pub users: Map<u8, User>,
    pub items: Map<u8, Item>,
}

impl StateView {
    /// The content of a store that holds no records.
    pub open spec fn empty() -> StateView {
        StateView { users: Map::empty(), items: Map::empty() }
    }

    /// The content after a user creation: the user stands under its id,
    /// replacing any prior record there; items are untouched.
    pub open spec fn with_user(self, u: User) -> StateView {
        StateView { users: self.users.insert(u.id, u), items: self.items }
    }

    /// The content after an item creation: the item stands under its id,
    /// replacing any prior record there; users are untouched.
    pub open spec fn with_item(self, i: Item) -> StateView {
        StateView { users: self.users, items: self.items.insert(i.id, i) }
    }

    /// What a user lookup observes: the record under the id, if any.
    pub open spec fn user_of(self, id: u8) -> Option<User> {
        if self.users.contains_key(id) {
            Some(self.users[id])
        } else {
            None
        }
    }

    /// What an item lookup observes: the record under the id, if any.
    pub open spec fn item_of(self, id: u8) -> Option<Item> {
        if self.items.contains_key(id) {
            Some(self.items[id])
        } else {
            None
        }
    }
}

/// The shared store: all user and item records of the process, held in
/// memory. Each collection is a flat sequence of records with pairwise
/// distinct ids, read abstractly as a mapping from id to record.
pub struct State {
    users: Vec<User>,
    items: Vec<Item>,
}

impl View for State {
    type V = StateView;

    open spec fn view(&self) -> StateView {
        StateView {
            users: keyed_map(self.users_seq(), by_user_id()),
            items: keyed_map(self.items_seq(), by_item_id()),
        }
    }
}

impl State {
    /// The stored user records, in insertion order.
    pub closed spec fn users_seq(self) -> Seq<User> {
        self.users@
    }

    /// The stored item records, in insertion order.
    pub closed spec fn items_seq(self) -> Seq<Item> {
        self.items@
    }

    /// Well-formedness: each collection holds at most one record per id, so
    /// the sequences faithfully represent the mappings of the view.
    pub open spec fn wf(self) -> bool {
        keys_distinct(self.users_seq(), by_user_id()) && keys_distinct(
            self.items_seq(),
            by_item_id(),
        )
    }

    /// Builds the store from initial record lists. Records are inserted in
    /// order, so a later record overwrites an earlier one with the same id,
    /// exactly as repeated creation would.
    pub fn new(users: Vec<User>, items: Vec<Item>) -> (r: State)
        ensures
            r.wf(),
            r@.users == keyed_map(users@, by_user_id()),
            r@.items == keyed_map(items@, by_item_id()),
    {
        let mut st = State { users: Vec::new(), items: Vec::new() };
        let n = users.len();
        let mut i: usize = 0;
        while i < n
            invariant
                st.wf(),
                i <= n,
                n == users@.len(),
                st@.users == keyed_map(users@.take(i as int), by_user_id()),
                st@.items == Map::<u8, Item>::empty(),
            decreases n - i,
        {
            let u = users[i].clone();
            proof {
                assert(users@.take(i + 1).drop_last() =~= users@.take(i as int));
                assert(users@.take(i + 1).last() == users@[i as int]);
            }
            let _ = st.create_user(u);
            i += 1;
        }
        proof {
            assert(users@.take(n as int) =~= users@);
        }
        let m = items.len();
        let mut j: usize = 0;
        while j < m
            invariant
                st.wf(),
                j <= m,
                m == items@.len(),
                st@.users == keyed_map(users@, by_user_id()),
                st@.items == keyed_map(items@.take(j as int), by_item_id()),
            decreases m - j,
        {
            let it = items[j].clone();
            proof {
                assert(items@.take(j + 1).drop_last() =~= items@.take(j as int));
                assert(items@.take(j + 1).last() == items@[j as int]);
            }
            let _ = st.create_item(it);
            j += 1;
        }
        proof {
            assert(items@.take(m as int) =~= items@);
        }
        st
    }

    /// The index of the user record carrying the id, if one is stored.
    fn find_user_index(&self, id: u8) -> (r: Option<usize>)
        ensures
            match r {
                Some(i) => i < self.users_seq().len() && self.users_seq()[i as int].id == id,
                None => forall|j: int|
                    0 <= j < self.users_seq().len() ==> (#[trigger] self.users_seq()[j]).id != id,
            },
    {
        let n = self.users.len();
        let mut i: usize = 0;
        while i < n
            invariant
                i <= n,
                n == self.users@.len(),
                forall|j: int| 0 <= j < i ==> (#[trigger] self.users@[j]).id != id,
            decreases n - i,
        {
            if self.users[i].id == id {
                return Some(i);
            }
            i += 1;
        }
        None
    }

    /// Inserts the user under its id. An existing record with that id is
    /// replaced entirely; nothing else changes. Returns the stored record.
    pub fn create_user(&mut self, user: User) -> (r: User)
        requires
            old(self).wf(),
        ensures
            final(self).wf(),
            final(self)@ == old(self)@.with_user(user),
            r == user,
    {
        let r = user.clone();
        let ghost key = by_user_id();
        match self.find_user_index(user.id) {
            Some(i) => {
                proof {
                    assert(key(self.users_seq()[i as int]) == user.id && key(user) == user.id);
                    lemma_keyed_map_update(self.users_seq(), key, i as int, user);
                }
                self.users[i] = user;
            },
            None => {
                proof {
                    lemma_keyed_map_push(self.users_seq(), key, user);
                    assert(forall|j: int|
                        0 <= j < self.users_seq().len() ==> key(#[trigger] self.users_seq()[j])
                            != key(user));
                }
                self.users.push(user);
            },
        }
        r
    }

    /// Looks the id up among the users. An absent id yields the declared
    /// `NotFound` outcome; a present one yields its record.
    pub fn get_user(&self, id: u8) -> (r: Result<User, StoreError>)
        requires
            self.wf(),
        ensures
            match r {
                Ok(u) => self@.user_of(id) == Some(u),
                Err(e) => self@.user_of(id) is None && e == StoreError::NotFound,
            },
    {
        let ghost key = by_user_id();
        match self.find_user_index(id) {
            Some(i) => {
                proof {
                    lemma_keyed_map_index(self.users_seq(), key, i as int);
                    assert(key(self.users_seq()[i as int]) == id);
                }
                Ok(self.users[i].clone())
            },
            None => {
                proof {
                    lemma_keyed_map_dom(self.users_seq(), key);
                }
                Err(StoreError::NotFound)
            },
        }
    }

    /// A full snapshot of the user collection, taken at call time: one record
    /// per stored id, each found under its own id by `user_of`.
    pub fn list_users(&self) -> (r: Vec<User>)
        requires
            self.wf(),
        ensures
            r@ == self.users_seq(),
            keyed_map(r@, by_user_id()) == self@.users,
            r@.len() == self@.users.dom().len(),
            forall|j: int| 0 <= j < r@.len() ==> self@.user_of((#[trigger] r@[j]).id) == Some(
                r@[j],
            ),
    {
        proof {
            lemma_keyed_map_len(self.users_seq(), by_user_id());
            assert forall|j: int| 0 <= j < self.users_seq().len() implies self@.user_of(
                (#[trigger] self.users_seq()[j]).id,
            ) == Some(self.users_seq()[j]) by {
                lemma_keyed_map_index(self.users_seq(), by_user_id(), j);
            }
        }
        let r = self.users.clone();
        proof {
            assert(r@ =~= self.users@);
        }
        r
    }

    /// The index of the item record carrying the id, if one is stored.
    fn find_item_index(&self, id: u8) -> (r: Option<usize>)
        ensures
            match r {
                Some(i) => i < self.items_seq().len() && self.items_seq()[i as int].id == id,
                None => forall|j: int|
                    0 <= j < self.items_seq().len() ==> (#[trigger] self.items_seq()[j]).id != id,
            },
    {
        let n = self.items.len();
        let mut i: usize = 0;
        while i < n
            invariant
                i <= n,
                n == self.items@.len(),
                forall|j: int| 0 <= j < i ==> (#[trigger] self.items@[j]).id != id,
            decreases n - i,
        {
            if self.items[i].id == id {
                return Some(i);
            }
            i += 1;
        }
        None
    }

    /// Stores the item under its id, embedding a fresh copy of the supplied
    /// owner fields: the stored owner is a snapshot taken now, not a link to
    /// any stored user. An existing record with that id is replaced entirely;
    /// nothing else changes. Returns the stored record, equal to the input.
    pub fn create_item(&mut self, item: Item) -> (r: Item)
        requires
            old(self).wf(),
        ensures
            final(self).wf(),
            final(self)@ == old(self)@.with_item(item),
            r == item,
    {
        let owner = User::new(item.owner.username.clone(), item.owner.age, item.owner.id);
        let stored = Item::new(item.name.clone(), owner, item.id);
        let ghost key = by_item_id();
        match self.find_item_index(item.id) {
            Some(i) => {
                proof {
                    assert(key(self.items_seq()[i as int]) == item.id && key(stored) == item.id);
                    lemma_keyed_map_update(self.items_seq(), key, i as int, stored);
                }
                self.items[i] = stored;
            },
            None => {
                proof {
                    lemma_keyed_map_push(self.items_seq(), key, stored);
                    assert(forall|j: int|
                        0 <= j < self.items_seq().len() ==> key(#[trigger] self.items_seq()[j])
                            != key(stored));
                }
                self.items.push(stored);
            },
        }
        item
    }

    /// Looks the id up among the items. An absent id yields the declared
    /// `NotFound` outcome; a present one yields its record.
    pub fn get_item(&self, id: u8) -> (r: Result<Item, StoreError>)
        requires
            self.wf(),
        ensures
            match r {
                Ok(it) => self@.item_of(id) == Some(it),
                Err(e) => self@.item_of(id) is None && e == StoreError::NotFound,
            },
    {
        let ghost key = by_item_id();
        match self.find_item_index(id) {
            Some(i) => {
                proof {
                    lemma_keyed_map_index(self.items_seq(), key, i as int);
                    assert(key(self.items_seq()[i as int]) == id);
                }
                Ok(self.items[i].clone())
            },
            None => {
                proof {
                    lemma_keyed_map_dom(self.items_seq(), key);
                }
                Err(StoreError::NotFound)
            },
        }
    }

    /// A full snapshot of the item collection, taken at call time: one record
    /// per stored id, each found under its own id by `item_of`.
    pub fn list_items(&self) -> (r: Vec<Item>)
        requires
            self.wf(),
        ensures
            r@ == self.items_seq(),
            keyed_map(r@, by_item_id()) == self@.items,
            r@.len() == self@.items.dom().len(),
            forall|j: int| 0 <= j < r@.len() ==> self@.item_of((#[trigger] r@[j]).id) == Some(
                r@[j],
            ),
    {
        proof {
            lemma_keyed_map_len(self.items_seq(), by_item_id());
            assert forall|j: int| 0 <= j < self.items_seq().len() implies self@.item_of(
                (#[trigger] self.items_seq()[j]).id,
            ) == Some(self.items_seq()[j]) by {
                lemma_keyed_map_index(self.items_seq(), by_item_id(), j);
            }
        }
        let r = self.items.clone();
        proof {
            assert(r@ =~= self.items@);
        }
        r
    }
}

} // verus!
