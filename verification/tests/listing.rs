use secret_santa::model::{OpError, Role};
use secret_santa::store::Store;

#[test]
fn empty_store_lists_no_groups() {
    let st = Store::new();
    assert_eq!(st.list_groups().len(), 0);
    assert_eq!(st.next_group_id(), 0);
}

#[test]
fn list_groups_reports_every_group() {
    let mut st = Store::new();
    st.create_group("alice", "xmas").unwrap();
    st.join_group("bob", "xmas").unwrap();
    st.create_group("carol", "office").unwrap();
    st.lock_and_assign("alice", "xmas").unwrap();
    let groups = st.list_groups();
    assert_eq!(groups.len(), 2);
    assert_eq!(groups[0].id, 0);
    assert_eq!(groups[0].name, "xmas");
    assert_eq!(groups[0].member_count, 2);
    assert!(groups[0].locked);
    assert_eq!(groups[1].id, 1);
    assert_eq!(groups[1].name, "office");
    assert_eq!(groups[1].member_count, 1);
    assert!(!groups[1].locked);
}

#[test]
fn list_members_keeps_storage_order() {
    let mut st = Store::new();
    st.create_group("alice", "xmas").unwrap();
    st.join_group("bob", "xmas").unwrap();
    st.join_group("carol", "xmas").unwrap();
    let members = st.list_members("xmas").unwrap();
    assert_eq!(members.len(), 3);
    assert_eq!(members[0].name, "alice");
    assert_eq!(members[0].role, Role::Admin);
    assert_eq!(members[1].name, "bob");
    assert_eq!(members[1].role, Role::Member);
    assert_eq!(members[2].name, "carol");
    assert_eq!(members[2].role, Role::Member);
}

#[test]
fn list_members_of_missing_group_is_refused() {
    let st = Store::new();
    assert!(matches!(
        st.list_members("xmas"),
        Err(OpError::GroupNotFound)
    ));
}

#[test]
fn list_members_with_empty_name_is_bad_input() {
    let st = Store::new();
    assert!(matches!(st.list_members(""), Err(OpError::BadInput)));
}

#[test]
fn person_exists_sees_every_group() {
    let mut st = Store::new();
    st.create_group("alice", "xmas").unwrap();
    st.create_group("bob", "office").unwrap();
    assert!(st.person_exists("alice"));
    assert!(st.person_exists("bob"));
    assert!(!st.person_exists("carol"));
}
