//! Data model: people, groups, the store, and their mathematical views.
//!
//! Executable values (`Person`, `Group`) carry `String` names; every contract
//! speaks of their views (`PersonV`, `GroupV`), whose names are `Seq<char>`.
//! `store_wf` is the well-formedness invariant that every operation of the
//! store preserves.

use vstd::prelude::*;

verus! {

/// What a member may do inside a group.
#[derive(Clone, Copy, PartialEq, Eq, Structural, Debug)]
pub enum Role {
    Member,
    Admin,
}

/// Every way an operation can be refused. All of these are expected,
/// recoverable conditions handed back to the caller.
#[derive(Clone, Copy, PartialEq, Eq, Structural, Debug)]
pub enum OpError {
    /// A required name was empty.
    BadInput,
    /// The named person is not where the operation needs them to be.
    PersonNotFound,
    /// No group has the given name.
    GroupNotFound,
    /// A group with the given name already exists.
    GroupNameTaken,
    /// The caller already belongs to a group.
    PersonAlreadyInGroup,
    /// The group is locked, so its membership is frozen.
    GroupLocked,
    /// The group is still open, so no assignment exists yet.
    GroupNotLocked,
    /// The caller is not an administrator of the group.
    InsufficientRole,
    /// Fewer than two members: no assignment is possible.
    InsufficientMembers,
    /// Removing the last administrator of a non-empty group is refused.
    CannotRemoveLastAdmin,
}

/// One participant, owned by the group they belong to.
pub struct Person {
    pub name: String,
    /// Set exactly when the group is locked: whom this person gifts.
    pub recipient: Option<String>,
    pub role: Role,
}

/// A named gift-exchange group.
pub struct Group {
    /// Stable handle, unique for the life of the process, never reused.
    pub id: u64,
    /// Display name, unique across the whole store.
    pub name: String,
    pub members: Vec<Person>,
    /// Once true, membership is frozen and every member has a recipient.
    pub locked: bool,
}

#[verifier::ext_equal]
pub ghost struct PersonV {
    pub name: Seq<char>,
    pub recipient: Option<Seq<char>>,
    pub role: Role,
}

#[verifier::ext_equal]
pub ghost struct GroupV {
    pub id: nat,
    pub name: Seq<char>,
    pub members: Seq<PersonV>,
    pub locked: bool,
}

#[verifier::ext_equal]
pub ghost struct StoreV {
    pub groups: Seq<GroupV>,
    /// The handle the next created group will get.
    pub next_id: nat,
}

impl View for Person {
    type V = PersonV;

    open spec fn view(&self) -> PersonV {
        PersonV {
            name: self.name@,
            recipient: match self.recipient {
                Some(r) => Some(r@),
                None => None,
            },
            role: self.role,
        }
    }
}

impl View for Group {
    type V = GroupV;

    open spec fn view(&self) -> GroupV {
        GroupV {
            id: self.id as nat,
            name: self.name@,
            members: self.members@.map_values(|p: Person| p@),
            locked: self.locked,
        }
    }
}

/// The views of a sequence of groups, as the store sees them.
pub open spec fn groups_view(gs: Seq<Group>) -> Seq<GroupV> {
    gs.map_values(|g: Group| g@)
}

/// True when somebody named `name` is a member of `g`.
pub open spec fn in_group(g: GroupV, name: Seq<char>) -> bool {
    exists|k: int| 0 <= k < g.members.len() && g.members[k].name == name
}

/// True when somebody named `name` belongs to any group of `gs`.
pub open spec fn in_store(gs: Seq<GroupV>, name: Seq<char>) -> bool {
    exists|i: int| 0 <= i < gs.len() && in_group(gs[i], name)
}

/// True when some group of `gs` is named `gname`.
pub open spec fn has_group(gs: Seq<GroupV>, gname: Seq<char>) -> bool {
    exists|i: int| 0 <= i < gs.len() && gs[i].name == gname
}

/// The index of the group named `gname`; meaningful only when `has_group`
/// holds, and then unique under `group_names_unique`.
pub open spec fn group_index(gs: Seq<GroupV>, gname: Seq<char>) -> int {
    choose|i: int| 0 <= i < gs.len() && gs[i].name == gname
}

/// The index of the member named `name`; meaningful only when `in_group`
/// holds, and then unique under `person_names_unique`.
pub open spec fn member_index(g: GroupV, name: Seq<char>) -> int {
    choose|k: int| 0 <= k < g.members.len() && g.members[k].name == name
}

/// True when `name` is an administrator member of `g`.
pub open spec fn is_admin(g: GroupV, name: Seq<char>) -> bool {
    exists|k: int|
        0 <= k < g.members.len() && g.members[k].name == name && g.members[k].role == Role::Admin
}

/// True when `g` has at least one administrator.
pub open spec fn has_admin(g: GroupV) -> bool {
    exists|k: int| 0 <= k < g.members.len() && g.members[k].role == Role::Admin
}

/// True when some administrator of `g` is not named `name`.
pub open spec fn another_admin(g: GroupV, name: Seq<char>) -> bool {
    exists|k: int|
        0 <= k < g.members.len() && g.members[k].role == Role::Admin && g.members[k].name != name
}

/// No two groups share a display name.
pub open spec fn group_names_unique(gs: Seq<GroupV>) -> bool {
    forall|i: int, j: int|
        #![trigger gs[i].name, gs[j].name]
        0 <= i < gs.len() && 0 <= j < gs.len() && i != j ==> gs[i].name != gs[j].name
}

/// No two groups share a handle.
pub open spec fn group_ids_unique(gs: Seq<GroupV>) -> bool {
    forall|i: int, j: int|
        #![trigger gs[i].id, gs[j].id]
        0 <= i < gs.len() && 0 <= j < gs.len() && i != j ==> gs[i].id != gs[j].id
}

/// Every handle already given out lies below the next one.
pub open spec fn ids_below(gs: Seq<GroupV>, next_id: nat) -> bool {
    forall|i: int| 0 <= i < gs.len() ==> #[trigger] gs[i].id < next_id
}

/// A person's name appears at most once in the whole store: at most one
/// group, and at most once inside it.
pub open spec fn person_names_unique(gs: Seq<GroupV>) -> bool {
    forall|i: int, a: int, j: int, b: int|
        #![trigger gs[i].members[a], gs[j].members[b]]
        0 <= i < gs.len() && 0 <= a < gs[i].members.len() && 0 <= j < gs.len() && 0 <= b
            < gs[j].members.len() && !(i == j && a == b) ==> gs[i].members[a].name
            != gs[j].members[b].name
}

/// A non-empty group always has an administrator.
pub open spec fn group_admin_ok(g: GroupV) -> bool {
    g.members.len() >= 1 ==> has_admin(g)
}

/// A locked group has at least two members and its recipients follow the
/// rotation: each member gifts the next one in storage order, the last
/// gifts the first.
pub open spec fn locked_group_ok(g: GroupV) -> bool {
    g.locked ==> {
        &&& g.members.len() >= 2
        &&& forall|k: int|
            #![trigger g.members[k], g.members[k + 1]]
            0 <= k < g.members.len() - 1 ==> g.members[k].recipient == Some(g.members[k + 1].name)
        &&& g.members[g.members.len() - 1].recipient == Some(g.members[0].name)
    }
}

/// An open group has no recipient assignment at all.
pub open spec fn open_group_ok(g: GroupV) -> bool {
    !g.locked ==> forall|k: int|
        #![trigger g.members[k]]
        0 <= k < g.members.len() ==> g.members[k].recipient is None
}

/// Everything that must hold of one group on its own.
pub open spec fn group_ok(g: GroupV) -> bool {
    &&& group_admin_ok(g)
    &&& locked_group_ok(g)
    &&& open_group_ok(g)
}

/// Everything that must hold of every group in the store.
pub open spec fn all_groups_ok(gs: Seq<GroupV>) -> bool {
    forall|i: int| 0 <= i < gs.len() ==> #[trigger] group_ok(gs[i])
}

/// The store's invariant: every operation requires it and preserves it.
pub open spec fn store_wf(s: StoreV) -> bool {
    &&& group_names_unique(s.groups)
    &&& group_ids_unique(s.groups)
    &&& ids_below(s.groups, s.next_id)
    &&& person_names_unique(s.groups)
    &&& all_groups_ok(s.groups)
}

/// Members of one group have pairwise distinct names.
pub open spec fn group_members_unique(g: GroupV) -> bool {
    forall|a: int, b: int|
        #![trigger g.members[a], g.members[b]]
        0 <= a < g.members.len() && 0 <= b < g.members.len() && a != b ==> g.members[a].name
            != g.members[b].name
}

/// Store-wide person-name uniqueness gives uniqueness inside each group.
pub proof fn lemma_group_members_unique(gs: Seq<GroupV>, i: int)
    requires
        person_names_unique(gs),
        0 <= i < gs.len(),
    ensures
        group_members_unique(gs[i]),
{
    assert forall|a: int, b: int|
        0 <= a < gs[i].members.len() && 0 <= b < gs[i].members.len() && a != b implies gs[i].members[a].name
        != gs[i].members[b].name by {
        assert(gs[i].members[a] == gs[i].members[a]);
        assert(gs[i].members[b] == gs[i].members[b]);
    }
}

/// Under unique group names, `group_index` is the index of any group that
/// carries the name.
pub proof fn lemma_group_index_of(gs: Seq<GroupV>, gname: Seq<char>, i: int)
    requires
        group_names_unique(gs),
        0 <= i < gs.len(),
        gs[i].name == gname,
    ensures
        has_group(gs, gname),
        group_index(gs, gname) == i,
{
    assert(has_group(gs, gname));
    let j = group_index(gs, gname);
    assert(0 <= j < gs.len() && gs[j].name == gname);
    if j != i {
        assert(gs[i].name != gs[j].name);
    }
}

/// Under unique member names, `member_index` is the index of any member that
/// carries the name.
pub proof fn lemma_member_index_of(g: GroupV, name: Seq<char>, k: int)
    requires
        group_members_unique(g),
        0 <= k < g.members.len(),
        g.members[k].name == name,
    ensures
        in_group(g, name),
        member_index(g, name) == k,
{
    assert(in_group(g, name));
    let j = member_index(g, name);
    assert(0 <= j < g.members.len() && g.members[j].name == name);
    if j != k {
        assert(g.members[k].name != g.members[j].name);
    }
}

/// Under unique member names, whether `name` is an administrator is decided
/// by the role at `name`'s own index.
pub proof fn lemma_admin_at_index(g: GroupV, name: Seq<char>, k: int)
    requires
        group_members_unique(g),
        0 <= k < g.members.len(),
        g.members[k].name == name,
    ensures
        is_admin(g, name) == (g.members[k].role == Role::Admin),
{
    if g.members[k].role == Role::Admin {
        assert(is_admin(g, name));
    } else if is_admin(g, name) {
        let j = choose|j: int|
            0 <= j < g.members.len() && g.members[j].name == name && g.members[j].role
                == Role::Admin;
        if j != k {
            assert(g.members[k].name != g.members[j].name);
        }
    }
}

/// In a well-formed store, somebody can be a member of at most one group.
pub proof fn lemma_member_of_one_group(gs: Seq<GroupV>, name: Seq<char>, i: int, j: int)
    requires
        person_names_unique(gs),
        0 <= i < gs.len(),
        0 <= j < gs.len(),
        in_group(gs[i], name),
        in_group(gs[j], name),
    ensures
        i == j,
{
    let a = choose|a: int| 0 <= a < gs[i].members.len() && gs[i].members[a].name == name;
    let b = choose|b: int| 0 <= b < gs[j].members.len() && gs[j].members[b].name == name;
    if i != j {
        assert(gs[i].members[a].name != gs[j].members[b].name);
    }
}

/// Replacing one group by a group with the same name, handle, and member
/// names (only roles, recipients, or the lock differ) keeps the store
/// well-formed, as long as the new group is sound on its own.
pub proof fn lemma_wf_update_same_names(s: StoreV, i: int, g2: GroupV)
    requires
        store_wf(s),
        0 <= i < s.groups.len(),
        g2.name == s.groups[i].name,
        g2.id == s.groups[i].id,
        g2.members.len() == s.groups[i].members.len(),
        forall|k: int|
            #![trigger g2.members[k]]
            0 <= k < g2.members.len() ==> g2.members[k].name == s.groups[i].members[k].name,
        group_ok(g2),
    ensures
        store_wf(StoreV { groups: s.groups.update(i, g2), next_id: s.next_id }),
{
    let gs = s.groups;
    let gs2 = gs.update(i, g2);
    assert forall|x: int, y: int|
        0 <= x < gs2.len() && 0 <= y < gs2.len() && x != y implies gs2[x].name != gs2[y].name by {
        assert(gs2[x].name == gs[x].name);
        assert(gs2[y].name == gs[y].name);
    }
    assert forall|x: int, y: int|
        0 <= x < gs2.len() && 0 <= y < gs2.len() && x != y implies gs2[x].id != gs2[y].id by {
        assert(gs2[x].id == gs[x].id);
        assert(gs2[y].id == gs[y].id);
    }
    assert forall|x: int| 0 <= x < gs2.len() implies #[trigger] gs2[x].id < s.next_id by {
        assert(gs2[x].id == gs[x].id);
    }
    assert forall|x: int, a: int, y: int, b: int|
        0 <= x < gs2.len() && 0 <= a < gs2[x].members.len() && 0 <= y < gs2.len() && 0 <= b
            < gs2[y].members.len() && !(x == y && a == b) implies gs2[x].members[a].name
        != gs2[y].members[b].name by {
        assert(gs2[x].members[a].name == gs[x].members[a].name);
        assert(gs2[y].members[b].name == gs[y].members[b].name);
        assert(gs[x].members[a].name != gs[y].members[b].name);
    }
    assert forall|x: int| 0 <= x < gs2.len() implies #[trigger] group_ok(gs2[x]) by {
        if x != i {
            assert(group_ok(gs[x]));
        }
    }
}

/// A group stays sound when only its members' roles change, as long as an
/// administrator remains (or the group is empty).
pub proof fn lemma_group_ok_same_shape(g: GroupV, g2: GroupV)
    requires
        group_ok(g),
        g2.locked == g.locked,
        g2.members.len() == g.members.len(),
        forall|k: int|
            #![trigger g2.members[k]]
            0 <= k < g2.members.len() ==> g2.members[k].name == g.members[k].name
                && g2.members[k].recipient == g.members[k].recipient,
        g2.members.len() >= 1 ==> has_admin(g2),
    ensures
        group_ok(g2),
{
    if g2.locked {
        assert forall|k: int| 0 <= k < g2.members.len() - 1 implies #[trigger] g2.members[k].recipient
            == Some(g2.members[k + 1].name) by {
            assert(g.members[k].recipient == Some(g.members[k + 1].name));
        }
        assert(g2.members[g2.members.len() - 1].recipient == Some(g2.members[0].name));
    } else {
        assert forall|k: int| 0 <= k < g2.members.len() implies #[trigger] g2.members[k].recipient
            is None by {
            assert(g.members[k].recipient is None);
        }
    }
}

/// Changing one member's role keeps the store well-formed, as long as an
/// administrator exists afterwards: either the new role is administrator,
/// or some other member already holds it.
pub proof fn lemma_wf_set_role(s: StoreV, i: int, t: int, role: Role)
    requires
        store_wf(s),
        0 <= i < s.groups.len(),
        0 <= t < s.groups[i].members.len(),
        role == Role::Admin || exists|a: int|
            0 <= a < s.groups[i].members.len() && a != t && s.groups[i].members[a].role
                == Role::Admin,
    ensures
        store_wf(
            StoreV {
                groups: s.groups.update(
                    i,
                    GroupV {
                        members: s.groups[i].members.update(
                            t,
                            PersonV { role, ..s.groups[i].members[t] },
                        ),
                        ..s.groups[i]
                    },
                ),
                next_id: s.next_id,
            },
        ),
{
    let g = s.groups[i];
    let p2 = PersonV { role, ..g.members[t] };
    let g2 = GroupV { members: g.members.update(t, p2), ..g };
    assert(group_ok(g));
    assert forall|c: int| 0 <= c < g2.members.len() implies #[trigger] g2.members[c].name
        == g.members[c].name && g2.members[c].recipient == g.members[c].recipient by {
        if c != t {
            assert(g2.members[c] == g.members[c]);
        }
    }
    if role == Role::Admin {
        assert(g2.members[t].role == Role::Admin);
        assert(has_admin(g2));
    } else {
        let a = choose|a: int|
            0 <= a < g.members.len() && a != t && g.members[a].role == Role::Admin;
        assert(g2.members[a] == g.members[a]);
        assert(has_admin(g2));
    }
    lemma_group_ok_same_shape(g, g2);
    lemma_wf_update_same_names(s, i, g2);
}

/// Appending a brand-new person to an open group keeps the store
/// well-formed; a person joining an empty group must arrive as its
/// administrator.
pub proof fn lemma_wf_push_member(s: StoreV, i: int, p: PersonV)
    requires
        store_wf(s),
        0 <= i < s.groups.len(),
        !in_store(s.groups, p.name),
        p.recipient is None,
        !s.groups[i].locked,
        s.groups[i].members.len() == 0 ==> p.role == Role::Admin,
    ensures
        store_wf(
            StoreV {
                groups: s.groups.update(
                    i,
                    GroupV { members: s.groups[i].members.push(p), ..s.groups[i] },
                ),
                next_id: s.next_id,
            },
        ),
{
    let gs = s.groups;
    let g = gs[i];
    let g2 = GroupV { members: g.members.push(p), ..g };
    let gs2 = gs.update(i, g2);
    let n = g.members.len() as int;
    assert forall|x: int, y: int|
        0 <= x < gs2.len() && 0 <= y < gs2.len() && x != y implies gs2[x].name != gs2[y].name by {
        assert(gs2[x].name == gs[x].name);
        assert(gs2[y].name == gs[y].name);
    }
    assert forall|x: int, y: int|
        0 <= x < gs2.len() && 0 <= y < gs2.len() && x != y implies gs2[x].id != gs2[y].id by {
        assert(gs2[x].id == gs[x].id);
        assert(gs2[y].id == gs[y].id);
    }
    assert forall|x: int| 0 <= x < gs2.len() implies #[trigger] gs2[x].id < s.next_id by {
        assert(gs2[x].id == gs[x].id);
    }
    assert forall|x: int, a: int, y: int, b: int|
        0 <= x < gs2.len() && 0 <= a < gs2[x].members.len() && 0 <= y < gs2.len() && 0 <= b
            < gs2[y].members.len() && !(x == y && a == b) implies gs2[x].members[a].name
        != gs2[y].members[b].name by {
        if x == i && a == n {
            assert(gs2[x].members[a] == p);
            assert(!in_group(gs[y], p.name));
            assert(gs2[y].members[b].name != p.name);
        } else if y == i && b == n {
            assert(gs2[y].members[b] == p);
            assert(!in_group(gs[x], p.name));
            assert(gs2[x].members[a].name != p.name);
        } else {
            assert(gs2[x].members[a].name == gs[x].members[a].name);
            assert(gs2[y].members[b].name == gs[y].members[b].name);
            assert(gs[x].members[a].name != gs[y].members[b].name);
        }
    }
    assert forall|x: int| 0 <= x < gs2.len() implies #[trigger] group_ok(gs2[x]) by {
        if x == i {
            if n == 0 {
                assert(g2.members[0] == p);
                assert(has_admin(g2));
            } else {
                assert(group_ok(g));
                let k = choose|k: int|
                    0 <= k < g.members.len() && g.members[k].role == Role::Admin;
                assert(g2.members[k] == g.members[k]);
                assert(has_admin(g2));
            }
            assert forall|k: int| 0 <= k < g2.members.len() implies #[trigger] g2.members[k].recipient
                is None by {
                assert(group_ok(g));
                if k < n {
                    assert(g2.members[k] == g.members[k]);
                }
            }
        } else {
            assert(group_ok(gs[x]));
        }
    }
}

/// Removing one member from an open group keeps the store well-formed, as
/// long as an administrator remains whenever other members do.
pub proof fn lemma_wf_remove_member(s: StoreV, i: int, k: int)
    requires
        store_wf(s),
        0 <= i < s.groups.len(),
        0 <= k < s.groups[i].members.len(),
        !s.groups[i].locked,
        s.groups[i].members.len() > 1 ==> exists|a: int|
            0 <= a < s.groups[i].members.len() && a != k && s.groups[i].members[a].role
                == Role::Admin,
    ensures
        store_wf(
            StoreV {
                groups: s.groups.update(
                    i,
                    GroupV { members: s.groups[i].members.remove(k), ..s.groups[i] },
                ),
                next_id: s.next_id,
            },
        ),
{
    let gs = s.groups;
    let g = gs[i];
    let g2 = GroupV { members: g.members.remove(k), ..g };
    let gs2 = gs.update(i, g2);
    let n = g.members.len() as int;
    g.members.remove_ensures(k);
    assert forall|x: int, y: int|
        0 <= x < gs2.len() && 0 <= y < gs2.len() && x != y implies gs2[x].name != gs2[y].name by {
        assert(gs2[x].name == gs[x].name);
        assert(gs2[y].name == gs[y].name);
    }
    assert forall|x: int, y: int|
        0 <= x < gs2.len() && 0 <= y < gs2.len() && x != y implies gs2[x].id != gs2[y].id by {
        assert(gs2[x].id == gs[x].id);
        assert(gs2[y].id == gs[y].id);
    }
    assert forall|x: int| 0 <= x < gs2.len() implies #[trigger] gs2[x].id < s.next_id by {
        assert(gs2[x].id == gs[x].id);
    }
    assert forall|x: int, a: int, y: int, b: int|
        0 <= x < gs2.len() && 0 <= a < gs2[x].members.len() && 0 <= y < gs2.len() && 0 <= b
            < gs2[y].members.len() && !(x == y && a == b) implies gs2[x].members[a].name
        != gs2[y].members[b].name by {
        let a0 = if x == i && a >= k {
            a + 1
        } else {
            a
        };
        let b0 = if y == i && b >= k {
            b + 1
        } else {
            b
        };
        assert(gs2[x].members[a] == gs[x].members[a0]);
        assert(gs2[y].members[b] == gs[y].members[b0]);
        assert(gs[x].members[a0].name != gs[y].members[b0].name);
    }
    assert forall|x: int| 0 <= x < gs2.len() implies #[trigger] group_ok(gs2[x]) by {
        if x == i {
            assert(group_ok(g));
            if g2.members.len() >= 1 {
                assert(n > 1);
                let a = choose|a: int|
                    0 <= a < n && a != k && g.members[a].role == Role::Admin;
                let a2 = if a < k {
                    a
                } else {
                    a - 1
                };
                assert(g2.members[a2] == g.members[a]);
                assert(has_admin(g2));
            }
            assert forall|c: int| 0 <= c < g2.members.len() implies #[trigger] g2.members[c].recipient
                is None by {
                let c0 = if c < k {
                    c
                } else {
                    c + 1
                };
                assert(g2.members[c] == g.members[c0]);
            }
        } else {
            assert(group_ok(gs[x]));
        }
    }
}

/// Creating a group with a fresh name, the next handle, and a single new
/// administrator keeps the store well-formed.
pub proof fn lemma_wf_push_group(s: StoreV, caller: Seq<char>, gname: Seq<char>)
    requires
        store_wf(s),
        !in_store(s.groups, caller),
        !has_group(s.groups, gname),
    ensures
        store_wf(
            StoreV {
                groups: s.groups.push(
                    GroupV {
                        id: s.next_id,
                        name: gname,
                        members: seq![
                            PersonV { name: caller, recipient: None, role: Role::Admin },
                        ],
                        locked: false,
                    },
                ),
                next_id: s.next_id + 1,
            },
        ),
{
    let gs = s.groups;
    let p = PersonV { name: caller, recipient: None, role: Role::Admin };
    let g = GroupV { id: s.next_id, name: gname, members: seq![p], locked: false };
    let gs2 = gs.push(g);
    let n = gs.len() as int;
    assert forall|x: int, y: int|
        0 <= x < gs2.len() && 0 <= y < gs2.len() && x != y implies gs2[x].name != gs2[y].name by {
        if x == n {
            assert(gs2[y].name == gs[y].name);
            assert(!(gs[y].name == gname));
        } else if y == n {
            assert(gs2[x].name == gs[x].name);
            assert(!(gs[x].name == gname));
        } else {
            assert(gs2[x].name == gs[x].name);
            assert(gs2[y].name == gs[y].name);
        }
    }
    assert forall|x: int, y: int|
        0 <= x < gs2.len() && 0 <= y < gs2.len() && x != y implies gs2[x].id != gs2[y].id by {
        if x == n {
            assert(gs2[y].id == gs[y].id && gs[y].id < s.next_id);
        } else if y == n {
            assert(gs2[x].id == gs[x].id && gs[x].id < s.next_id);
        } else {
            assert(gs2[x].id == gs[x].id);
            assert(gs2[y].id == gs[y].id);
        }
    }
    assert forall|x: int| 0 <= x < gs2.len() implies #[trigger] gs2[x].id < s.next_id + 1 by {
        if x < n {
            assert(gs2[x].id == gs[x].id);
        }
    }
    assert forall|x: int, a: int, y: int, b: int|
        0 <= x < gs2.len() && 0 <= a < gs2[x].members.len() && 0 <= y < gs2.len() && 0 <= b
            < gs2[y].members.len() && !(x == y && a == b) implies gs2[x].members[a].name
        != gs2[y].members[b].name by {
        if x == n {
            assert(a == 0 && gs2[x].members[a] == p);
            assert(y < n);
            assert(!in_group(gs[y], caller));
            assert(gs2[y].members[b] == gs[y].members[b]);
        } else if y == n {
            assert(b == 0 && gs2[y].members[b] == p);
            assert(x < n);
            assert(!in_group(gs[x], caller));
            assert(gs2[x].members[a] == gs[x].members[a]);
        } else {
            assert(gs2[x].members[a] == gs[x].members[a]);
            assert(gs2[y].members[b] == gs[y].members[b]);
            assert(gs[x].members[a].name != gs[y].members[b].name);
        }
    }
    assert forall|x: int| 0 <= x < gs2.len() implies #[trigger] group_ok(gs2[x]) by {
        if x == n {
            assert(g.members[0] == p);
            assert(has_admin(g));
            assert forall|c: int| 0 <= c < g.members.len() implies #[trigger] g.members[c].recipient
                is None by {
                assert(g.members[c] == p);
            }
        } else {
            assert(gs2[x] == gs[x]);
            assert(group_ok(gs[x]));
        }
    }
}

/// Removing a whole group keeps the store well-formed.
pub proof fn lemma_wf_remove_group(s: StoreV, i: int)
    requires
        store_wf(s),
        0 <= i < s.groups.len(),
    ensures
        store_wf(StoreV { groups: s.groups.remove(i), next_id: s.next_id }),
{
    let gs = s.groups;
    let gs2 = gs.remove(i);
    gs.remove_ensures(i);
    assert forall|x: int, y: int|
        0 <= x < gs2.len() && 0 <= y < gs2.len() && x != y implies gs2[x].name != gs2[y].name by {
        let x0 = if x < i {
            x
        } else {
            x + 1
        };
        let y0 = if y < i {
            y
        } else {
            y + 1
        };
        assert(gs2[x] == gs[x0]);
        assert(gs2[y] == gs[y0]);
    }
    assert forall|x: int, y: int|
        0 <= x < gs2.len() && 0 <= y < gs2.len() && x != y implies gs2[x].id != gs2[y].id by {
        let x0 = if x < i {
            x
        } else {
            x + 1
        };
        let y0 = if y < i {
            y
        } else {
            y + 1
        };
        assert(gs2[x] == gs[x0]);
        assert(gs2[y] == gs[y0]);
    }
    assert forall|x: int| 0 <= x < gs2.len() implies #[trigger] gs2[x].id < s.next_id by {
        let x0 = if x < i {
            x
        } else {
            x + 1
        };
        assert(gs2[x] == gs[x0]);
    }
    assert forall|x: int, a: int, y: int, b: int|
        0 <= x < gs2.len() && 0 <= a < gs2[x].members.len() && 0 <= y < gs2.len() && 0 <= b
            < gs2[y].members.len() && !(x == y && a == b) implies gs2[x].members[a].name
        != gs2[y].members[b].name by {
        let x0 = if x < i {
            x
        } else {
            x + 1
        };
        let y0 = if y < i {
            y
        } else {
            y + 1
        };
        assert(gs2[x] == gs[x0]);
        assert(gs2[y] == gs[y0]);
        assert(gs[x0].members[a].name != gs[y0].members[b].name);
    }
    assert forall|x: int| 0 <= x < gs2.len() implies #[trigger] group_ok(gs2[x]) by {
        let x0 = if x < i {
            x
        } else {
            x + 1
        };
        assert(gs2[x] == gs[x0]);
        assert(group_ok(gs[x0]));
    }
}

} // verus!
