use secret_santa::model::OpError;
use secret_santa::store::Store;

#[test]
fn two_member_lock_swaps_recipients() {
    let mut st = Store::new();
    st.create_group("alice", "xmas").unwrap();
    st.join_group("bob", "xmas").unwrap();
    assert_eq!(st.lock_and_assign("alice", "xmas"), Ok(()));
    assert_eq!(st.who_do_i_gift("alice", "xmas"), Ok("bob".to_string()));
    assert_eq!(st.who_do_i_gift("bob", "xmas"), Ok("alice".to_string()));
    let groups = st.list_groups();
    assert!(groups[0].locked);
}

#[test]
fn three_member_lock_forms_one_cycle() {
    let mut st = Store::new();
    st.create_group("alice", "xmas").unwrap();
    st.join_group("bob", "xmas").unwrap();
    st.join_group("carol", "xmas").unwrap();
    st.lock_and_assign("alice", "xmas").unwrap();
    assert_eq!(st.who_do_i_gift("alice", "xmas"), Ok("bob".to_string()));
    assert_eq!(st.who_do_i_gift("bob", "xmas"), Ok("carol".to_string()));
    assert_eq!(st.who_do_i_gift("carol", "xmas"), Ok("alice".to_string()));
}

#[test]
fn lock_with_one_member_is_refused() {
    let mut st = Store::new();
    st.create_group("alice", "xmas").unwrap();
    assert_eq!(
        st.lock_and_assign("alice", "xmas"),
        Err(OpError::InsufficientMembers)
    );
}

#[test]
fn lock_by_plain_member_is_refused() {
    let mut st = Store::new();
    st.create_group("alice", "xmas").unwrap();
    st.join_group("bob", "xmas").unwrap();
    assert_eq!(
        st.lock_and_assign("bob", "xmas"),
        Err(OpError::InsufficientRole)
    );
}

#[test]
fn lock_by_unknown_person_is_refused() {
    let mut st = Store::new();
    st.create_group("alice", "xmas").unwrap();
    st.join_group("bob", "xmas").unwrap();
    assert_eq!(
        st.lock_and_assign("nobody", "xmas"),
        Err(OpError::PersonNotFound)
    );
}

#[test]
fn lock_missing_group_is_refused() {
    let mut st = Store::new();
    st.create_group("alice", "xmas").unwrap();
    assert_eq!(
        st.lock_and_assign("alice", "easter"),
        Err(OpError::GroupNotFound)
    );
}

#[test]
fn lock_happens_exactly_once() {
    let mut st = Store::new();
    st.create_group("alice", "xmas").unwrap();
    st.join_group("bob", "xmas").unwrap();
    st.lock_and_assign("alice", "xmas").unwrap();
    assert_eq!(st.lock_and_assign("alice", "xmas"), Err(OpError::GroupLocked));
}

#[test]
fn locked_group_membership_is_frozen() {
    let mut st = Store::new();
    st.create_group("alice", "xmas").unwrap();
    st.join_group("bob", "xmas").unwrap();
    st.lock_and_assign("alice", "xmas").unwrap();
    assert_eq!(st.join_group("carol", "xmas"), Err(OpError::GroupLocked));
    assert_eq!(st.quit_group("bob", "xmas"), Err(OpError::GroupLocked));
    assert_eq!(st.delete_group("alice", "xmas"), Err(OpError::GroupLocked));
    // The queries still answer on a locked group.
    assert_eq!(st.who_do_i_gift("bob", "xmas"), Ok("alice".to_string()));
    assert_eq!(st.list_members("xmas").unwrap().len(), 2);
}

#[test]
fn query_before_lock_is_refused() {
    let mut st = Store::new();
    st.create_group("alice", "xmas").unwrap();
    assert_eq!(
        st.who_do_i_gift("alice", "xmas"),
        Err(OpError::GroupNotLocked)
    );
}

#[test]
fn query_by_non_member_is_refused() {
    let mut st = Store::new();
    st.create_group("alice", "xmas").unwrap();
    st.join_group("bob", "xmas").unwrap();
    st.lock_and_assign("alice", "xmas").unwrap();
    assert_eq!(
        st.who_do_i_gift("carol", "xmas"),
        Err(OpError::PersonNotFound)
    );
}

#[test]
fn query_missing_group_is_refused() {
    let st = Store::new();
    assert_eq!(
        st.who_do_i_gift("alice", "xmas"),
        Err(OpError::GroupNotFound)
    );
}

#[test]
fn query_with_empty_names_is_bad_input() {
    let st = Store::new();
    assert_eq!(st.who_do_i_gift("", "xmas"), Err(OpError::BadInput));
    assert_eq!(st.who_do_i_gift("alice", ""), Err(OpError::BadInput));
}

#[test]
fn roles_may_still_change_after_lock() {
    let mut st = Store::new();
    st.create_group("alice", "xmas").unwrap();
    st.join_group("bob", "xmas").unwrap();
    st.lock_and_assign("alice", "xmas").unwrap();
    assert_eq!(st.promote_admin("alice", "xmas", "bob"), Ok(()));
    assert_eq!(st.demote_admin("alice", "xmas"), Ok(()));
    // The assignment itself is untouched.
    assert_eq!(st.who_do_i_gift("alice", "xmas"), Ok("bob".to_string()));
}
