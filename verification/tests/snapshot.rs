use secret_santa::model::{Group, Person, Role};
use secret_santa::store::Store;

fn person(name: &str, recipient: Option<&str>, role: Role) -> Person {
    Person {
        name: name.to_string(),
        recipient: recipient.map(|r| r.to_string()),
        role,
    }
}

#[test]
fn empty_snapshot_is_accepted() {
    let st = Store::from_snapshot(Vec::new(), 0).unwrap();
    assert_eq!(st.list_groups().len(), 0);
}

#[test]
fn sound_snapshot_is_accepted() {
    let groups = vec![
        Group {
            id: 0,
            name: "xmas".to_string(),
            members: vec![
                person("alice", Some("bob"), Role::Admin),
                person("bob", Some("alice"), Role::Member),
            ],
            locked: true,
        },
        Group {
            id: 1,
            name: "office".to_string(),
            members: vec![person("carol", None, Role::Admin)],
            locked: false,
        },
    ];
    let st = Store::from_snapshot(groups, 2).unwrap();
    assert_eq!(st.who_do_i_gift("alice", "xmas"), Ok("bob".to_string()));
    assert_eq!(st.list_groups().len(), 2);
    assert_eq!(st.next_group_id(), 2);
}

#[test]
fn duplicate_group_name_is_refused() {
    let groups = vec![
        Group {
            id: 0,
            name: "xmas".to_string(),
            members: vec![person("alice", None, Role::Admin)],
            locked: false,
        },
        Group {
            id: 1,
            name: "xmas".to_string(),
            members: vec![person("bob", None, Role::Admin)],
            locked: false,
        },
    ];
    assert!(Store::from_snapshot(groups, 2).is_none());
}

#[test]
fn duplicate_group_handle_is_refused() {
    let groups = vec![
        Group {
            id: 0,
            name: "xmas".to_string(),
            members: vec![person("alice", None, Role::Admin)],
            locked: false,
        },
        Group {
            id: 0,
            name: "office".to_string(),
            members: vec![person("bob", None, Role::Admin)],
            locked: false,
        },
    ];
    assert!(Store::from_snapshot(groups, 2).is_none());
}

#[test]
fn handle_at_or_above_next_is_refused() {
    let groups = vec![Group {
        id: 5,
        name: "xmas".to_string(),
        members: vec![person("alice", None, Role::Admin)],
        locked: false,
    }];
    assert!(Store::from_snapshot(groups, 5).is_none());
}

#[test]
fn person_in_two_groups_is_refused() {
    let groups = vec![
        Group {
            id: 0,
            name: "xmas".to_string(),
            members: vec![person("alice", None, Role::Admin)],
            locked: false,
        },
        Group {
            id: 1,
            name: "office".to_string(),
            members: vec![person("alice", None, Role::Admin)],
            locked: false,
        },
    ];
    assert!(Store::from_snapshot(groups, 2).is_none());
}

#[test]
fn duplicate_member_in_one_group_is_refused() {
    let groups = vec![Group {
        id: 0,
        name: "xmas".to_string(),
        members: vec![
            person("alice", None, Role::Admin),
            person("alice", None, Role::Member),
        ],
        locked: false,
    }];
    assert!(Store::from_snapshot(groups, 1).is_none());
}

#[test]
fn non_empty_group_without_admin_is_refused() {
    let groups = vec![Group {
        id: 0,
        name: "xmas".to_string(),
        members: vec![person("alice", None, Role::Member)],
        locked: false,
    }];
    assert!(Store::from_snapshot(groups, 1).is_none());
}

#[test]
fn open_group_with_recipient_is_refused() {
    let groups = vec![Group {
        id: 0,
        name: "xmas".to_string(),
        members: vec![person("alice", Some("bob"), Role::Admin)],
        locked: false,
    }];
    assert!(Store::from_snapshot(groups, 1).is_none());
}

#[test]
fn locked_group_with_one_member_is_refused() {
    let groups = vec![Group {
        id: 0,
        name: "xmas".to_string(),
        members: vec![person("alice", Some("alice"), Role::Admin)],
        locked: true,
    }];
    assert!(Store::from_snapshot(groups, 1).is_none());
}

#[test]
fn locked_group_with_broken_rotation_is_refused() {
    let groups = vec![Group {
        id: 0,
        name: "xmas".to_string(),
        members: vec![
            person("alice", Some("alice"), Role::Admin),
            person("bob", Some("alice"), Role::Member),
        ],
        locked: true,
    }];
    assert!(Store::from_snapshot(groups, 1).is_none());
}

#[test]
fn locked_group_with_missing_recipient_is_refused() {
    let groups = vec![Group {
        id: 0,
        name: "xmas".to_string(),
        members: vec![
            person("alice", Some("bob"), Role::Admin),
            person("bob", None, Role::Member),
        ],
        locked: true,
    }];
    assert!(Store::from_snapshot(groups, 1).is_none());
}

#[test]
fn restored_store_keeps_working() {
    let groups = vec![Group {
        id: 3,
        name: "xmas".to_string(),
        members: vec![person("alice", None, Role::Admin)],
        locked: false,
    }];
    let mut st = Store::from_snapshot(groups, 4).unwrap();
    assert_eq!(st.create_group("bob", "office"), Ok(4));
    st.join_group("carol", "xmas").unwrap();
    assert_eq!(st.lock_and_assign("alice", "xmas"), Ok(()));
    assert_eq!(st.who_do_i_gift("carol", "xmas"), Ok("alice".to_string()));
}
