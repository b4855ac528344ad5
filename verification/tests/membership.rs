use secret_santa::model::{OpError, Role};
use secret_santa::store::Store;

#[test]
fn create_group_returns_first_handle() {
    let mut st = Store::new();
    assert_eq!(st.create_group("alice", "xmas"), Ok(0));
    assert!(st.person_exists("alice"));
    let groups = st.list_groups();
    assert_eq!(groups.len(), 1);
    assert_eq!(groups[0].id, 0);
    assert_eq!(groups[0].name, "xmas");
    assert_eq!(groups[0].member_count, 1);
    assert!(!groups[0].locked);
}

#[test]
fn founder_is_admin() {
    let mut st = Store::new();
    st.create_group("alice", "xmas").unwrap();
    let members = st.list_members("xmas").unwrap();
    assert_eq!(members.len(), 1);
    assert_eq!(members[0].name, "alice");
    assert_eq!(members[0].role, Role::Admin);
}

#[test]
fn create_with_empty_names_is_bad_input() {
    let mut st = Store::new();
    assert_eq!(st.create_group("", "xmas"), Err(OpError::BadInput));
    assert_eq!(st.create_group("alice", ""), Err(OpError::BadInput));
}

#[test]
fn create_duplicate_group_name_is_refused() {
    let mut st = Store::new();
    st.create_group("alice", "xmas").unwrap();
    assert_eq!(st.create_group("bob", "xmas"), Err(OpError::GroupNameTaken));
}

#[test]
fn create_while_member_is_refused() {
    let mut st = Store::new();
    st.create_group("alice", "xmas").unwrap();
    assert_eq!(
        st.create_group("alice", "easter"),
        Err(OpError::PersonAlreadyInGroup)
    );
}

#[test]
fn join_appends_plain_member() {
    let mut st = Store::new();
    st.create_group("alice", "xmas").unwrap();
    assert_eq!(st.join_group("bob", "xmas"), Ok(()));
    let members = st.list_members("xmas").unwrap();
    assert_eq!(members.len(), 2);
    assert_eq!(members[1].name, "bob");
    assert_eq!(members[1].role, Role::Member);
}

#[test]
fn join_missing_group_is_refused() {
    let mut st = Store::new();
    assert_eq!(st.join_group("bob", "xmas"), Err(OpError::GroupNotFound));
}

#[test]
fn join_when_already_in_other_group_is_refused() {
    let mut st = Store::new();
    st.create_group("alice", "other").unwrap();
    st.create_group("bob", "xmas").unwrap();
    assert_eq!(
        st.join_group("alice", "xmas"),
        Err(OpError::PersonAlreadyInGroup)
    );
}

#[test]
fn join_twice_fails_the_second_time() {
    let mut st = Store::new();
    st.create_group("alice", "xmas").unwrap();
    st.join_group("bob", "xmas").unwrap();
    assert_eq!(
        st.join_group("bob", "xmas"),
        Err(OpError::PersonAlreadyInGroup)
    );
}

#[test]
fn join_then_quit_is_a_net_no_op() {
    let mut st = Store::new();
    st.create_group("alice", "xmas").unwrap();
    st.join_group("bob", "xmas").unwrap();
    assert_eq!(st.quit_group("bob", "xmas"), Ok(()));
    let members = st.list_members("xmas").unwrap();
    assert_eq!(members.len(), 1);
    assert_eq!(members[0].name, "alice");
    assert_eq!(members[0].role, Role::Admin);
    assert!(!st.person_exists("bob"));
}

#[test]
fn quit_by_unknown_person_is_refused() {
    let mut st = Store::new();
    st.create_group("alice", "xmas").unwrap();
    assert_eq!(st.quit_group("bob", "xmas"), Err(OpError::PersonNotFound));
}

#[test]
fn quit_missing_group_is_refused() {
    let mut st = Store::new();
    st.create_group("alice", "xmas").unwrap();
    assert_eq!(st.quit_group("alice", "easter"), Err(OpError::GroupNotFound));
}

#[test]
fn quit_by_member_of_another_group_is_refused() {
    let mut st = Store::new();
    st.create_group("alice", "xmas").unwrap();
    st.create_group("bob", "other").unwrap();
    assert_eq!(st.quit_group("bob", "xmas"), Err(OpError::PersonNotFound));
}

#[test]
fn sole_admin_cannot_quit_while_others_remain() {
    let mut st = Store::new();
    st.create_group("alice", "xmas").unwrap();
    st.join_group("bob", "xmas").unwrap();
    assert_eq!(
        st.quit_group("alice", "xmas"),
        Err(OpError::CannotRemoveLastAdmin)
    );
}

#[test]
fn sole_admin_alone_may_quit_and_a_joiner_refounds() {
    let mut st = Store::new();
    st.create_group("alice", "xmas").unwrap();
    assert_eq!(st.quit_group("alice", "xmas"), Ok(()));
    assert_eq!(st.list_members("xmas").unwrap().len(), 0);
    // The group still exists, empty; the next joiner becomes its admin.
    assert_eq!(st.join_group("bob", "xmas"), Ok(()));
    let members = st.list_members("xmas").unwrap();
    assert_eq!(members.len(), 1);
    assert_eq!(members[0].role, Role::Admin);
    st.join_group("carol", "xmas").unwrap();
    assert_eq!(st.lock_and_assign("bob", "xmas"), Ok(()));
}

#[test]
fn delete_group_removes_it_entirely() {
    let mut st = Store::new();
    st.create_group("alice", "xmas").unwrap();
    st.join_group("bob", "xmas").unwrap();
    assert_eq!(st.delete_group("alice", "xmas"), Ok(()));
    assert_eq!(st.list_groups().len(), 0);
    assert!(!st.person_exists("alice"));
    assert!(!st.person_exists("bob"));
}

#[test]
fn delete_by_plain_member_is_refused() {
    let mut st = Store::new();
    st.create_group("alice", "xmas").unwrap();
    st.join_group("bob", "xmas").unwrap();
    assert_eq!(st.delete_group("bob", "xmas"), Err(OpError::InsufficientRole));
}

#[test]
fn delete_by_outsider_is_refused() {
    let mut st = Store::new();
    st.create_group("alice", "xmas").unwrap();
    st.create_group("bob", "other").unwrap();
    assert_eq!(st.delete_group("bob", "xmas"), Err(OpError::InsufficientRole));
}

#[test]
fn delete_missing_group_is_refused() {
    let mut st = Store::new();
    st.create_group("alice", "xmas").unwrap();
    assert_eq!(st.delete_group("alice", "easter"), Err(OpError::GroupNotFound));
}

#[test]
fn handles_are_never_reused() {
    let mut st = Store::new();
    assert_eq!(st.create_group("alice", "first"), Ok(0));
    assert_eq!(st.create_group("bob", "second"), Ok(1));
    st.delete_group("alice", "first").unwrap();
    assert_eq!(st.create_group("alice", "third"), Ok(2));
    assert_eq!(st.next_group_id(), 3);
    let groups = st.list_groups();
    assert_eq!(groups.len(), 2);
    assert_eq!(groups[0].id, 1);
    assert_eq!(groups[1].id, 2);
}

#[test]
fn promote_makes_target_admin() {
    let mut st = Store::new();
    st.create_group("alice", "xmas").unwrap();
    st.join_group("bob", "xmas").unwrap();
    assert_eq!(st.promote_admin("alice", "xmas", "bob"), Ok(()));
    let members = st.list_members("xmas").unwrap();
    assert_eq!(members[1].name, "bob");
    assert_eq!(members[1].role, Role::Admin);
}

#[test]
fn promote_by_plain_member_is_refused() {
    let mut st = Store::new();
    st.create_group("alice", "xmas").unwrap();
    st.join_group("bob", "xmas").unwrap();
    st.join_group("carol", "xmas").unwrap();
    assert_eq!(
        st.promote_admin("bob", "xmas", "carol"),
        Err(OpError::InsufficientRole)
    );
}

#[test]
fn promote_target_outside_the_group_is_refused() {
    let mut st = Store::new();
    st.create_group("alice", "xmas").unwrap();
    st.create_group("bob", "other").unwrap();
    assert_eq!(
        st.promote_admin("alice", "xmas", "bob"),
        Err(OpError::PersonNotFound)
    );
}

#[test]
fn promote_unknown_target_is_refused() {
    let mut st = Store::new();
    st.create_group("alice", "xmas").unwrap();
    assert_eq!(
        st.promote_admin("alice", "xmas", "nobody"),
        Err(OpError::PersonNotFound)
    );
}

#[test]
fn promote_with_empty_target_is_bad_input() {
    let mut st = Store::new();
    st.create_group("alice", "xmas").unwrap();
    assert_eq!(st.promote_admin("alice", "xmas", ""), Err(OpError::BadInput));
}

#[test]
fn demote_needs_another_admin() {
    let mut st = Store::new();
    st.create_group("alice", "xmas").unwrap();
    st.join_group("bob", "xmas").unwrap();
    assert_eq!(
        st.demote_admin("alice", "xmas"),
        Err(OpError::CannotRemoveLastAdmin)
    );
    st.promote_admin("alice", "xmas", "bob").unwrap();
    assert_eq!(st.demote_admin("alice", "xmas"), Ok(()));
    let members = st.list_members("xmas").unwrap();
    assert_eq!(members[0].role, Role::Member);
    assert_eq!(members[1].role, Role::Admin);
    // Alice is a plain member now and cannot step down again.
    assert_eq!(st.demote_admin("alice", "xmas"), Err(OpError::InsufficientRole));
}
