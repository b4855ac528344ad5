//! The state machine, stated mathematically.
//!
//! Each operation of the store has one transition function here, from the old
//! store view and the operation's inputs to the new store view and the
//! outcome. The executable operations promise exactly these transitions, and
//! the laws in `laws` are proved of them.

use vstd::prelude::*;

use crate::model::{
    GroupV, OpError, PersonV, Role, StoreV, another_admin, group_index, has_group, in_group,
    in_store, is_admin, member_index,
};

verus! {

/// The role a joiner receives: a member joining an empty group re-founds it
/// and becomes its administrator, so that every non-empty group keeps an
/// administrator; otherwise they join as a plain member.
pub open spec fn joined_role(g: GroupV) -> Role {
    if g.members.len() == 0 {
        Role::Admin
    } else {
        Role::Member
    }
}

/// Creating a group: the caller must belong to no group and the name must be
/// free; the new group is open, carries the next handle, and has the caller
/// as its sole member and administrator.
pub open spec fn create_group_spec(s: StoreV, caller: Seq<char>, gname: Seq<char>) -> (StoreV,
    Result<nat, OpError>) {
    if caller.len() == 0 || gname.len() == 0 {
        (s, Err(OpError::BadInput))
    } else if in_store(s.groups, caller) {
        (s, Err(OpError::PersonAlreadyInGroup))
    } else if has_group(s.groups, gname) {
        (s, Err(OpError::GroupNameTaken))
    } else {
        let founder = PersonV { name: caller, recipient: None, role: Role::Admin };
        let g = GroupV { id: s.next_id, name: gname, members: seq![founder], locked: false };
        (StoreV { groups: s.groups.push(g), next_id: s.next_id + 1 }, Ok(s.next_id))
    }
}

/// Joining a group: the caller must belong to no group, the group must exist
/// and be open; the caller is appended with no recipient.
pub open spec fn join_group_spec(s: StoreV, caller: Seq<char>, gname: Seq<char>) -> (StoreV,
    Result<(), OpError>) {
    if caller.len() == 0 || gname.len() == 0 {
        (s, Err(OpError::BadInput))
    } else if in_store(s.groups, caller) {
        (s, Err(OpError::PersonAlreadyInGroup))
    } else if !has_group(s.groups, gname) {
        (s, Err(OpError::GroupNotFound))
    } else {
        let i = group_index(s.groups, gname);
        let g = s.groups[i];
        if g.locked {
            (s, Err(OpError::GroupLocked))
        } else {
            let p = PersonV { name: caller, recipient: None, role: joined_role(g) };
            let g2 = GroupV { members: g.members.push(p), ..g };
            (StoreV { groups: s.groups.update(i, g2), ..s }, Ok(()))
        }
    }
}

/// Quitting a group: refused while the group is locked, and refused for the
/// sole administrator while other members remain; otherwise the caller is
/// removed from the member list.
pub open spec fn quit_group_spec(s: StoreV, caller: Seq<char>, gname: Seq<char>) -> (StoreV,
    Result<(), OpError>) {
    if caller.len() == 0 || gname.len() == 0 {
        (s, Err(OpError::BadInput))
    } else if !in_store(s.groups, caller) {
        (s, Err(OpError::PersonNotFound))
    } else if !has_group(s.groups, gname) {
        (s, Err(OpError::GroupNotFound))
    } else {
        let i = group_index(s.groups, gname);
        let g = s.groups[i];
        if g.locked {
            (s, Err(OpError::GroupLocked))
        } else if !in_group(g, caller) {
            (s, Err(OpError::PersonNotFound))
        } else if is_admin(g, caller) && !another_admin(g, caller) && g.members.len() > 1 {
            (s, Err(OpError::CannotRemoveLastAdmin))
        } else {
            let g2 = GroupV { members: g.members.remove(member_index(g, caller)), ..g };
            (StoreV { groups: s.groups.update(i, g2), ..s }, Ok(()))
        }
    }
}

/// Deleting a group: only an administrator member of an open group may remove
/// it, and the whole group leaves the store. A locked group's membership is
/// frozen, so deleting it is refused.
pub open spec fn delete_group_spec(s: StoreV, caller: Seq<char>, gname: Seq<char>) -> (StoreV,
    Result<(), OpError>) {
    if caller.len() == 0 || gname.len() == 0 {
        (s, Err(OpError::BadInput))
    } else if !in_store(s.groups, caller) {
        (s, Err(OpError::PersonNotFound))
    } else if !has_group(s.groups, gname) {
        (s, Err(OpError::GroupNotFound))
    } else {
        let i = group_index(s.groups, gname);
        let g = s.groups[i];
        if g.locked {
            (s, Err(OpError::GroupLocked))
        } else if !is_admin(g, caller) {
            (s, Err(OpError::InsufficientRole))
        } else {
            (StoreV { groups: s.groups.remove(i), ..s }, Ok(()))
        }
    }
}

/// Promoting a member: an administrator of the named group raises another
/// member of that same group to administrator.
pub open spec fn promote_admin_spec(
    s: StoreV,
    caller: Seq<char>,
    gname: Seq<char>,
    target: Seq<char>,
) -> (StoreV, Result<(), OpError>) {
    if caller.len() == 0 || gname.len() == 0 || target.len() == 0 {
        (s, Err(OpError::BadInput))
    } else if !in_store(s.groups, caller) || !in_store(s.groups, target) {
        (s, Err(OpError::PersonNotFound))
    } else if !has_group(s.groups, gname) {
        (s, Err(OpError::GroupNotFound))
    } else {
        let i = group_index(s.groups, gname);
        let g = s.groups[i];
        if !is_admin(g, caller) {
            (s, Err(OpError::InsufficientRole))
        } else if !in_group(g, target) {
            (s, Err(OpError::PersonNotFound))
        } else {
            let t = member_index(g, target);
            let p2 = PersonV { role: Role::Admin, ..g.members[t] };
            let g2 = GroupV { members: g.members.update(t, p2), ..g };
            (StoreV { groups: s.groups.update(i, g2), ..s }, Ok(()))
        }
    }
}

/// Stepping down: an administrator becomes a plain member, unless they are
/// the group's only administrator.
pub open spec fn demote_admin_spec(s: StoreV, caller: Seq<char>, gname: Seq<char>) -> (StoreV,
    Result<(), OpError>) {
    if caller.len() == 0 || gname.len() == 0 {
        (s, Err(OpError::BadInput))
    } else if !in_store(s.groups, caller) {
        (s, Err(OpError::PersonNotFound))
    } else if !has_group(s.groups, gname) {
        (s, Err(OpError::GroupNotFound))
    } else {
        let i = group_index(s.groups, gname);
        let g = s.groups[i];
        if !is_admin(g, caller) {
            (s, Err(OpError::InsufficientRole))
        } else if !another_admin(g, caller) {
            (s, Err(OpError::CannotRemoveLastAdmin))
        } else {
            let k = member_index(g, caller);
            let p2 = PersonV { role: Role::Member, ..g.members[k] };
            let g2 = GroupV { members: g.members.update(k, p2), ..g };
            (StoreV { groups: s.groups.update(i, g2), ..s }, Ok(()))
        }
    }
}

/// The members after assignment: each keeps their name and role, and gifts
/// the next member in storage order; the last gifts the first.
pub open spec fn assigned_members(ms: Seq<PersonV>) -> Seq<PersonV> {
    Seq::new(
        ms.len(),
        |k: int|
            PersonV {
                name: ms[k].name,
                role: ms[k].role,
                recipient: Some(ms[if k + 1 == ms.len() { 0int } else { k + 1 }].name),
            },
    )
}

/// Locking a group and assigning recipients: an administrator of an open
/// group with at least two members freezes it; recipients follow the fixed
/// rotation of `assigned_members`. Locking happens exactly once: a locked
/// group cannot be locked again.
pub open spec fn lock_and_assign_spec(s: StoreV, caller: Seq<char>, gname: Seq<char>) -> (StoreV,
    Result<(), OpError>) {
    if caller.len() == 0 || gname.len() == 0 {
        (s, Err(OpError::BadInput))
    } else if !in_store(s.groups, caller) {
        (s, Err(OpError::PersonNotFound))
    } else if !has_group(s.groups, gname) {
        (s, Err(OpError::GroupNotFound))
    } else {
        let i = group_index(s.groups, gname);
        let g = s.groups[i];
        if g.locked {
            (s, Err(OpError::GroupLocked))
        } else if !is_admin(g, caller) {
            (s, Err(OpError::InsufficientRole))
        } else if g.members.len() < 2 {
            (s, Err(OpError::InsufficientMembers))
        } else {
            let g2 = GroupV { members: assigned_members(g.members), locked: true, ..g };
            (StoreV { groups: s.groups.update(i, g2), ..s }, Ok(()))
        }
    }
}

/// Locking an open group of at least two members yields a sound group: the
/// member names are kept, an administrator remains, and the recipients
/// follow the rotation.
pub proof fn lemma_assigned_group_ok(g: GroupV)
    requires
        crate::model::group_ok(g),
        !g.locked,
        g.members.len() >= 2,
    ensures
        ({
            let g2 = GroupV { members: assigned_members(g.members), locked: true, ..g };
            &&& crate::model::group_ok(g2)
            &&& g2.members.len() == g.members.len()
            &&& forall|k: int|
                0 <= k < g2.members.len() ==> #[trigger] g2.members[k].name == g.members[k].name
        }),
{
    let g2 = GroupV { members: assigned_members(g.members), locked: true, ..g };
    let n = g.members.len() as int;
    let a = choose|a: int| 0 <= a < g.members.len() && g.members[a].role == Role::Admin;
    assert(g2.members[a].role == Role::Admin);
    assert(crate::model::has_admin(g2));
    assert forall|k: int| 0 <= k < n - 1 implies #[trigger] g2.members[k].recipient == Some(
        g2.members[k + 1].name,
    ) by {
        assert(g2.members[k].recipient == Some(g.members[k + 1].name));
    }
    assert(g2.members[n - 1].recipient == Some(g2.members[0].name));
}

/// Querying one's recipient: only members of a locked group have one.
pub open spec fn who_do_i_gift_spec(s: StoreV, caller: Seq<char>, gname: Seq<char>) -> Result<
    Seq<char>,
    OpError,
> {
    if caller.len() == 0 || gname.len() == 0 {
        Err(OpError::BadInput)
    } else if !has_group(s.groups, gname) {
        Err(OpError::GroupNotFound)
    } else {
        let g = s.groups[group_index(s.groups, gname)];
        if !g.locked {
            Err(OpError::GroupNotLocked)
        } else if !in_group(g, caller) {
            Err(OpError::PersonNotFound)
        } else {
            match g.members[member_index(g, caller)].recipient {
                Some(r) => Ok(r),
                None => Err(OpError::PersonNotFound),
            }
        }
    }
}

#[verifier::ext_equal]
pub ghost struct GroupSummaryV {
    pub id: nat,
    pub name: Seq<char>,
    pub member_count: nat,
    pub locked: bool,
}

#[verifier::ext_equal]
pub ghost struct MemberV {
    pub name: Seq<char>,
    pub role: Role,
}

/// Listing groups: one summary per group, in storage order.
pub open spec fn list_groups_spec(s: StoreV) -> Seq<GroupSummaryV> {
    s.groups.map_values(
        |g: GroupV|
            GroupSummaryV { id: g.id, name: g.name, member_count: g.members.len(), locked: g.locked },
    )
}

/// Listing one group's members: their names and roles, in storage order.
pub open spec fn list_members_spec(s: StoreV, gname: Seq<char>) -> Result<Seq<MemberV>, OpError> {
    if gname.len() == 0 {
        Err(OpError::BadInput)
    } else if !has_group(s.groups, gname) {
        Err(OpError::GroupNotFound)
    } else {
        Ok(
            s.groups[group_index(s.groups, gname)].members.map_values(
                |p: PersonV| MemberV { name: p.name, role: p.role },
            ),
        )
    }
}

} // verus!
