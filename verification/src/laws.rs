//! Laws of the store, stated over its abstract content.
//!
//! Each proof function here records a guarantee of the store as a whole —
//! how creations, lookups and snapshots relate across calls — over the same
//! [`StateView`] operations that the executable methods' contracts use.

use crate::keyed::keys_distinct;
use crate::store::{by_user_id, Item, StateView, User};
use vstd::prelude::*;

verus! {

/// Creating a user and then looking its id up returns exactly that user.
pub proof fn lemma_create_then_get_user(s: StateView, u: User)
    ensures
        s.with_user(u).user_of(u.id) == Some(u),
{
}

/// Creating a user whose id already exists replaces the prior record
/// entirely — the stored record is the new one, no field of the old record
/// survives — and every other entry, user and item alike, is untouched.
pub proof fn lemma_create_user_overwrites(s: StateView, u: User)
    requires
        s.users.contains_key(u.id),
    ensures
        s.with_user(u).user_of(u.id) == Some(u),
        s.with_user(u).users.dom() =~= s.users.dom(),
        forall|k: u8| k != u.id ==> s.with_user(u).user_of(k) == s.user_of(k),
        s.with_user(u).items == s.items,
{
}

/// Each creation makes the set of stored user ids the old set plus the new
/// id: the store holds one entry per distinct id ever created, so a snapshot
/// has exactly that many records.
pub proof fn lemma_create_user_dom(s: StateView, u: User)
    ensures
        s.with_user(u).users.dom() =~= s.users.dom().insert(u.id),
{
}

/// A stored item's owner is a snapshot: creating any user afterwards — one
/// with the owner's own id included — leaves the stored item, its embedded
/// owner fields included, unchanged.
pub proof fn lemma_owner_snapshot(s: StateView, item: Item, u: User)
    ensures
        s.with_item(item).with_user(u).item_of(item.id) == Some(item),
{
}

/// Creations of users with different ids commute: every interleaving of
/// distinct-id creations reaches the same store content, so none is lost.
pub proof fn lemma_create_users_commute(s: StateView, u1: User, u2: User)
    requires
        u1.id != u2.id,
    ensures
        s.with_user(u1).with_user(u2) == s.with_user(u2).with_user(u1),
{
    assert(s.users.insert(u1.id, u1).insert(u2.id, u2) =~= s.users.insert(u2.id, u2).insert(
        u1.id,
        u1,
    ));
}

/// The content after creating each user of a sequence, in order.
pub open spec fn with_users(s: StateView, us: Seq<User>) -> StateView
    decreases us.len(),
{
    if us.len() == 0 {
        s
    } else {
        with_users(s, us.drop_last()).with_user(us.last())
    }
}

/// A sequence of creations stores exactly the prior ids and the created ones,
/// and leaves the items untouched.
pub proof fn lemma_with_users_dom(s: StateView, us: Seq<User>)
    ensures
        forall|k: u8|
            with_users(s, us).users.contains_key(k) <==> (s.users.contains_key(k) || exists|j: int|
                0 <= j < us.len() && (#[trigger] us[j]).id == k),
        with_users(s, us).items == s.items,
    decreases us.len(),
{
    if us.len() > 0 {
        lemma_with_users_dom(s, us.drop_last());
        assert forall|k: u8| with_users(s, us).users.contains_key(k) implies (s.users.contains_key(
            k,
        ) || exists|j: int| 0 <= j < us.len() && (#[trigger] us[j]).id == k) by {
            if k == us.last().id {
                assert(us[us.len() - 1].id == k);
            } else if !s.users.contains_key(k) {
                assert(with_users(s, us.drop_last()).users.contains_key(k));
                let j = choose|j: int|
                    0 <= j < us.drop_last().len() && (#[trigger] us.drop_last()[j]).id == k;
                assert(us[j].id == k);
            }
        }
        assert forall|k: u8|
            (s.users.contains_key(k) || exists|j: int|
                0 <= j < us.len() && (#[trigger] us[j]).id == k) implies with_users(
            s,
            us,
        ).users.contains_key(k) by {
            if !s.users.contains_key(k) {
                let j = choose|j: int| 0 <= j < us.len() && (#[trigger] us[j]).id == k;
                if j < us.len() - 1 {
                    assert(us.drop_last()[j] == us[j]);
                    assert(0 <= j < us.drop_last().len() && us.drop_last()[j].id == k);
                    assert(with_users(s, us.drop_last()).users.contains_key(k));
                }
            }
        }
    }
}

/// Creating a batch of users with pairwise distinct ids, none stored before,
/// adds exactly one entry per user, each equal to its submitted record —
/// whatever the order, no creation is lost and none is torn.
pub proof fn lemma_create_many_users(s: StateView, us: Seq<User>)
    requires
        s.users.dom().finite(),
        keys_distinct(us, by_user_id()),
        forall|j: int| 0 <= j < us.len() ==> !s.users.contains_key((#[trigger] us[j]).id),
    ensures
        with_users(s, us).users.dom().finite(),
        with_users(s, us).users.dom().len() == s.users.dom().len() + us.len(),
        forall|j: int|
            0 <= j < us.len() ==> with_users(s, us).user_of((#[trigger] us[j]).id) == Some(us[j]),
    decreases us.len(),
{
    let key = by_user_id();
    if us.len() > 0 {
        let prior = with_users(s, us.drop_last());
        assert forall|m: int, n: int|
            0 <= m < n < us.drop_last().len() implies key(us.drop_last()[m]) != key(
            us.drop_last()[n],
        ) by {
            assert(us.drop_last()[m] == us[m] && us.drop_last()[n] == us[n]);
        }
        assert forall|j: int|
            0 <= j < us.drop_last().len() implies !s.users.contains_key(
            (#[trigger] us.drop_last()[j]).id,
        ) by {
            assert(us.drop_last()[j] == us[j]);
        }
        lemma_create_many_users(s, us.drop_last());
        lemma_with_users_dom(s, us.drop_last());
        let last = us.last();
        assert(!prior.users.contains_key(last.id)) by {
            assert(!s.users.contains_key(us[us.len() - 1].id));
            if exists|j: int| 0 <= j < us.drop_last().len() && (#[trigger] us.drop_last()[j]).id
                == last.id {
                let j = choose|j: int|
                    0 <= j < us.drop_last().len() && (#[trigger] us.drop_last()[j]).id == last.id;
                assert(key(us[j]) == key(us[us.len() - 1]));
            }
        }
        assert(with_users(s, us).users == prior.users.insert(last.id, last));
        assert forall|j: int| 0 <= j < us.len() implies with_users(s, us).user_of(
            (#[trigger] us[j]).id,
        ) == Some(us[j]) by {
            if j < us.len() - 1 {
                assert(us.drop_last()[j] == us[j]);
                assert(prior.user_of(us[j].id) == Some(us[j]));
                assert(key(us[j]) != key(us[us.len() - 1]));
            }
        }
    }
}

} // verus!
