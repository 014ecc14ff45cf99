use memstore::store::{Item, State, StoreError, User};

fn empty_state() -> State {
    State::new(Vec::new(), Vec::new())
}

fn user(username: &str, age: u8, id: u8) -> User {
    User::new(String::from(username), age, id)
}

fn item(name: &str, owner: User, id: u8) -> Item {
    Item::new(String::from(name), owner, id)
}

#[test]
fn user_new_places_fields() {
    let u = user("alice", 30, 1);
    assert_eq!(u.id, 1);
    assert_eq!(u.username, "alice");
    assert_eq!(u.age, 30);
}

#[test]
fn item_new_places_fields() {
    let it = item("bike", user("alice", 30, 1), 5);
    assert_eq!(it.id, 5);
    assert_eq!(it.name, "bike");
    assert_eq!(it.owner, user("alice", 30, 1));
}

#[test]
fn create_then_get_user() {
    let mut st = empty_state();
    let stored = st.create_user(user("alice", 30, 1));
    assert_eq!(stored, user("alice", 30, 1));
    let got = st.get_user(1).unwrap();
    assert_eq!(got, user("alice", 30, 1));
}

#[test]
fn get_missing_user_is_not_found() {
    let st = empty_state();
    assert_eq!(st.get_user(99).unwrap_err(), StoreError::NotFound);
}

#[test]
fn get_missing_user_after_creates_is_not_found() {
    let mut st = empty_state();
    st.create_user(user("alice", 30, 1));
    st.create_user(user("bob", 40, 2));
    assert_eq!(st.get_user(3).unwrap_err(), StoreError::NotFound);
}

#[test]
fn create_user_with_existing_id_replaces_entirely() {
    let mut st = empty_state();
    st.create_user(user("alice", 30, 1));
    st.create_user(user("carol", 22, 1));
    let got = st.get_user(1).unwrap();
    assert_eq!(got, user("carol", 22, 1));
    assert_eq!(st.list_users().len(), 1);
}

#[test]
fn list_users_counts_distinct_ids() {
    let mut st = empty_state();
    st.create_user(user("alice", 30, 1));
    st.create_user(user("bob", 40, 2));
    st.create_user(user("carol", 22, 1));
    let snapshot = st.list_users();
    assert_eq!(snapshot.len(), 2);
}

#[test]
fn list_users_snapshot_is_immune_to_later_creates() {
    let mut st = empty_state();
    st.create_user(user("alice", 30, 1));
    let snapshot = st.list_users();
    st.create_user(user("bob", 40, 2));
    assert_eq!(snapshot.len(), 1);
    assert_eq!(snapshot[0], user("alice", 30, 1));
}

#[test]
fn item_owner_is_a_snapshot() {
    let mut st = empty_state();
    st.create_item(item("brush", user("a", 20, 7), 3));
    st.create_user(user("b", 55, 7));
    let got = st.get_item(3).unwrap();
    assert_eq!(got.owner, user("a", 20, 7));
    assert_eq!(st.get_user(7).unwrap(), user("b", 55, 7));
}

#[test]
fn get_missing_item_is_not_found() {
    let st = empty_state();
    assert_eq!(st.get_item(8).unwrap_err(), StoreError::NotFound);
}

#[test]
fn create_item_with_existing_id_replaces_entirely() {
    let mut st = empty_state();
    st.create_item(item("bike", user("alice", 30, 1), 5));
    st.create_item(item("car", user("bob", 40, 2), 5));
    assert_eq!(st.get_item(5).unwrap(), item("car", user("bob", 40, 2), 5));
    assert_eq!(st.list_items().len(), 1);
}

#[test]
fn users_and_items_do_not_interfere() {
    let mut st = empty_state();
    st.create_user(user("alice", 30, 1));
    st.create_item(item("bike", user("alice", 30, 1), 1));
    assert_eq!(st.get_user(1).unwrap(), user("alice", 30, 1));
    assert_eq!(st.get_item(1).unwrap(), item("bike", user("alice", 30, 1), 1));
    assert_eq!(st.list_users().len(), 1);
    assert_eq!(st.list_items().len(), 1);
}

#[test]
fn scenario_round_trip() {
    let mut st = empty_state();

    let stored = st.create_user(user("alice", 30, 1));
    assert_eq!(stored, user("alice", 30, 1));
    assert_eq!(st.get_user(1).unwrap(), user("alice", 30, 1));

    let stored_item = st.create_item(item("bike", user("alice", 30, 1), 5));
    assert_eq!(stored_item, item("bike", user("alice", 30, 1), 5));
    assert_eq!(st.get_item(5).unwrap(), item("bike", user("alice", 30, 1), 5));

    assert_eq!(st.get_user(99).unwrap_err(), StoreError::NotFound);
}

#[test]
fn hundred_distinct_users_all_stored() {
    let mut st = empty_state();
    for id in 0..100u8 {
        st.create_user(user(&format!("user{}", id), id, id));
    }
    assert_eq!(st.list_users().len(), 100);
    for id in 0..100u8 {
        let got = st.get_user(id).unwrap();
        assert_eq!(got, user(&format!("user{}", id), id, id));
    }
}

#[test]
fn state_new_keeps_initial_records() {
    let st = State::new(
        vec![user("alice", 30, 1), user("bob", 40, 2)],
        vec![item("bike", user("alice", 30, 1), 5)],
    );
    assert_eq!(st.get_user(1).unwrap(), user("alice", 30, 1));
    assert_eq!(st.get_user(2).unwrap(), user("bob", 40, 2));
    assert_eq!(st.get_item(5).unwrap(), item("bike", user("alice", 30, 1), 5));
}

#[test]
fn state_new_last_record_wins_on_duplicate_id() {
    let st = State::new(vec![user("alice", 30, 1), user("carol", 22, 1)], Vec::new());
    assert_eq!(st.get_user(1).unwrap(), user("carol", 22, 1));
    assert_eq!(st.list_users().len(), 1);
}

#[test]
fn clones_equal_their_originals() {
    let u = user("alice", 30, 1);
    assert_eq!(u.clone(), u);
    let it = item("bike", u.clone(), 5);
    assert_eq!(it.clone(), it);
}
