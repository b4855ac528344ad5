//! Laws of the state machine, proved once and for all over the transition
//! functions of `crate::transitions`.

use vstd::prelude::*;

use crate::model::{
    GroupV, OpError, PersonV, Role, StoreV, group_index, group_members_unique, group_ok, has_group,
    in_group, in_store, is_admin, lemma_group_index_of, lemma_group_members_unique,
    lemma_member_index_of, locked_group_ok, member_index, store_wf,
};
use crate::transitions::{
    assigned_members, create_group_spec, delete_group_spec, join_group_spec, joined_role,
    lemma_assigned_group_ok, list_members_spec, lock_and_assign_spec, quit_group_spec,
    who_do_i_gift_spec,
};

verus! {

/// The name a member gifts to; the empty name when none is assigned yet.
pub open spec fn recipient_name(p: PersonV) -> Seq<char> {
    match p.recipient {
        Some(nm) => nm,
        None => Seq::empty(),
    }
}

/// The index of the member whom the member at `j` gifts.
pub open spec fn next_index(g: GroupV, j: int) -> int {
    member_index(g, recipient_name(g.members[j]))
}

/// True when following the chain from `k` for fewer than `n` steps can
/// land on `j`.
pub open spec fn reaches_within(g: GroupV, k: int, j: int, n: int) -> bool {
    exists|t: int| 0 <= t < n && #[trigger] follow(g, k, t as nat) == j
}

/// The index reached from member `k` after following the recipient chain
/// for `t` steps.
pub open spec fn follow(g: GroupV, k: int, t: nat) -> int
    decreases t,
{
    if t == 0 {
        k
    } else {
        next_index(g, follow(g, k, (t - 1) as nat))
    }
}

/// In a locked, well-formed group, each member gifts the member at the
/// next index, wrapping around at the end.
proof fn lemma_next_index_rotation(g: GroupV, j: int)
    requires
        g.locked,
        locked_group_ok(g),
        group_members_unique(g),
        0 <= j < g.members.len(),
    ensures
        next_index(g, j) == (if j == g.members.len() - 1 {
            0int
        } else {
            j + 1
        }),
{
    let n = g.members.len() as int;
    if j == n - 1 {
        assert(g.members[j].recipient == Some(g.members[0].name));
        lemma_member_index_of(g, g.members[0].name, 0);
    } else {
        assert(g.members[j].recipient == Some(g.members[j + 1].name));
        lemma_member_index_of(g, g.members[j + 1].name, j + 1);
    }
}

/// Following the chain for `t` steps from `k` lands on `k + t`, reduced
/// once modulo the member count.
proof fn lemma_follow_rotation(g: GroupV, k: int, t: nat)
    requires
        g.locked,
        locked_group_ok(g),
        group_members_unique(g),
        0 <= k < g.members.len(),
        t <= g.members.len(),
    ensures
        follow(g, k, t) == (if k + t < g.members.len() {
            k + t
        } else {
            k + t - g.members.len()
        }),
    decreases t,
{
    let n = g.members.len() as int;
    if t == 0 {
    } else {
        lemma_follow_rotation(g, k, (t - 1) as nat);
        let prev = follow(g, k, (t - 1) as nat);
        lemma_next_index_rotation(g, prev);
    }
}

/// After a successful lock-and-assign, the locked group's recipients form
/// one full cycle: every member has a recipient, nobody gifts themselves,
/// and following the chain from any member visits every member exactly
/// once before arriving back at the start after as many steps as there are
/// members.
pub proof fn lemma_lock_assign_cycle(s: StoreV, caller: Seq<char>, gname: Seq<char>)
    requires
        store_wf(s),
        lock_and_assign_spec(s, caller, gname).1 is Ok,
    ensures
        ({
            let s2 = lock_and_assign_spec(s, caller, gname).0;
            let g2 = s2.groups[group_index(s.groups, gname)];
            let n = g2.members.len() as int;
            &&& 2 <= n
            &&& forall|k: int| 0 <= k < n ==> (#[trigger] g2.members[k].recipient) is Some
            &&& forall|k: int|
                0 <= k < n ==> (#[trigger] g2.members[k].recipient) != Some(g2.members[k].name)
            &&& forall|k: int, t: int|
                0 <= k < n && 1 <= t < n ==> #[trigger] follow(g2, k, t as nat) != k
            &&& forall|k: int| 0 <= k < n ==> #[trigger] follow(g2, k, n as nat) == k
            &&& forall|k: int, j: int|
                0 <= k < n && 0 <= j < n ==> #[trigger] reaches_within(g2, k, j, n)
        }),
{
    let i = group_index(s.groups, gname);
    let g = s.groups[i];
    let s2 = lock_and_assign_spec(s, caller, gname).0;
    let g2 = s2.groups[i];
    let n = g.members.len() as int;
    assert(g2 == GroupV { members: assigned_members(g.members), locked: true, ..g });
    assert(group_ok(g));
    lemma_assigned_group_ok(g);
    lemma_group_members_unique(s.groups, i);
    assert forall|a: int, b: int|
        0 <= a < g2.members.len() && 0 <= b < g2.members.len() && a != b implies g2.members[a].name
        != g2.members[b].name by {
        assert(g2.members[a].name == g.members[a].name);
        assert(g2.members[b].name == g.members[b].name);
    }
    assert forall|k: int| 0 <= k < n implies (#[trigger] g2.members[k].recipient) is Some by {
        if k < n - 1 {
            assert(g2.members[k].recipient == Some(g2.members[k + 1].name));
        } else {
            assert(g2.members[k].recipient == Some(g2.members[0].name));
        }
    }
    assert forall|k: int| 0 <= k < n implies (#[trigger] g2.members[k].recipient) != Some(
        g2.members[k].name,
    ) by {
        if k < n - 1 {
            assert(g2.members[k].recipient == Some(g2.members[k + 1].name));
            assert(g2.members[k + 1].name != g2.members[k].name);
        } else {
            assert(g2.members[k].recipient == Some(g2.members[0].name));
            if k != 0 {
                assert(g2.members[0].name != g2.members[k].name);
            }
        }
    }
    assert forall|k: int, t: int| 0 <= k < n && 1 <= t < n implies #[trigger] follow(
        g2,
        k,
        t as nat,
    ) != k by {
        lemma_follow_rotation(g2, k, t as nat);
    }
    assert forall|k: int| 0 <= k < n implies #[trigger] follow(g2, k, n as nat) == k by {
        lemma_follow_rotation(g2, k, n as nat);
    }
    assert forall|k: int, j: int| 0 <= k < n && 0 <= j < n implies #[trigger] reaches_within(
        g2,
        k,
        j,
        n,
    ) by {
        let t = if j >= k {
            j - k
        } else {
            j - k + n
        };
        lemma_follow_rotation(g2, k, t as nat);
        assert(0 <= t < n && follow(g2, k, t as nat) == j);
    }
}

/// Joining a group and then quitting it again, with nothing happening in
/// between, succeeds and returns the store to exactly its previous state.
pub proof fn lemma_join_then_quit(s: StoreV, caller: Seq<char>, gname: Seq<char>)
    requires
        store_wf(s),
        join_group_spec(s, caller, gname).1 is Ok,
    ensures
        ({
            let s1 = join_group_spec(s, caller, gname).0;
            let (s2, r2) = quit_group_spec(s1, caller, gname);
            s2 == s && r2 == Ok::<(), OpError>(())
        }),
{
    let i = group_index(s.groups, gname);
    let g = s.groups[i];
    let p = PersonV { name: caller, recipient: None, role: joined_role(g) };
    let g1 = GroupV { members: g.members.push(p), ..g };
    let s1 = join_group_spec(s, caller, gname).0;
    let n = g.members.len() as int;
    assert(s1.groups == s.groups.update(i, g1));
    assert(in_group(g1, caller)) by {
        assert(g1.members[n] == p);
    }
    assert(in_store(s1.groups, caller)) by {
        assert(s1.groups[i] == g1);
    }
    assert forall|x: int, y: int|
        0 <= x < s1.groups.len() && 0 <= y < s1.groups.len() && x != y implies s1.groups[x].name
        != s1.groups[y].name by {
        assert(s1.groups[x].name == s.groups[x].name);
        assert(s1.groups[y].name == s.groups[y].name);
    }
    lemma_group_index_of(s1.groups, gname, i);
    assert(!g1.locked);
    lemma_group_members_unique(s.groups, i);
    assert forall|a: int, b: int|
        0 <= a < g1.members.len() && 0 <= b < g1.members.len() && a != b implies g1.members[a].name
        != g1.members[b].name by {
        if a == n {
            assert(!in_group(g, caller));
            assert(g1.members[b] == g.members[b]);
        } else if b == n {
            assert(!in_group(g, caller));
            assert(g1.members[a] == g.members[a]);
        } else {
            assert(g1.members[a] == g.members[a]);
            assert(g1.members[b] == g.members[b]);
        }
    }
    lemma_member_index_of(g1, caller, n);
    if n == 0 {
        assert(is_admin(g1, caller) ==> g1.members.len() == 1);
    } else {
        assert(!is_admin(g1, caller)) by {
            if is_admin(g1, caller) {
                let k = choose|k: int|
                    0 <= k < g1.members.len() && g1.members[k].name == caller
                        && g1.members[k].role == Role::Admin;
                if k != n {
                    assert(g1.members[k] == g.members[k]);
                    assert(!in_group(g, caller));
                }
            }
        }
    }
    let g2 = GroupV { members: g1.members.remove(n), ..g1 };
    assert(g2.members =~~= g.members) by {
        g1.members.remove_ensures(n);
    }
    assert(g2 =~~= g);
    let (s2, r2) = quit_group_spec(s1, caller, gname);
    assert(r2 == Ok::<(), OpError>(()));
    assert(s2.groups =~~= s.groups) by {
        assert(s2.groups == s1.groups.update(i, g2));
    }
    assert(s2 =~~= s);
}

/// Somebody who already belongs to a group can neither create nor join
/// another one: both operations refuse and leave the store untouched.
pub proof fn lemma_already_in_group_rejected(s: StoreV, caller: Seq<char>, gname: Seq<char>)
    requires
        in_store(s.groups, caller),
        caller.len() > 0,
        gname.len() > 0,
    ensures
        ({
            let (s2, r) = create_group_spec(s, caller, gname);
            s2 == s && r == Err::<nat, OpError>(OpError::PersonAlreadyInGroup)
        }),
        ({
            let (s2, r) = join_group_spec(s, caller, gname);
            s2 == s && r == Err::<(), OpError>(OpError::PersonAlreadyInGroup)
        }),
{
}

/// A person belongs to at most one group of a well-formed store: two
/// groups that both contain `name` are one and the same.
pub proof fn lemma_at_most_one_group(s: StoreV, name: Seq<char>, i: int, j: int)
    requires
        store_wf(s),
        0 <= i < s.groups.len(),
        0 <= j < s.groups.len(),
        in_group(s.groups[i], name),
        in_group(s.groups[j], name),
    ensures
        i == j,
{
    crate::model::lemma_member_of_one_group(s.groups, name, i, j);
}

/// Once a group is locked, its membership is frozen: joining, quitting,
/// deleting, and locking it again all fail with `GroupLocked`, while the
/// assignment queries still answer: a member learns their recipient, and
/// the member list can still be read.
pub proof fn lemma_locked_group_frozen(s: StoreV, caller: Seq<char>, gname: Seq<char>)
    requires
        store_wf(s),
        caller.len() > 0,
        gname.len() > 0,
        has_group(s.groups, gname),
        s.groups[group_index(s.groups, gname)].locked,
    ensures
        !in_store(s.groups, caller) ==> ({
            let (s2, r) = join_group_spec(s, caller, gname);
            s2 == s && r == Err::<(), OpError>(OpError::GroupLocked)
        }),
        in_store(s.groups, caller) ==> ({
            let (s2, r) = quit_group_spec(s, caller, gname);
            s2 == s && r == Err::<(), OpError>(OpError::GroupLocked)
        }),
        in_store(s.groups, caller) ==> ({
            let (s2, r) = delete_group_spec(s, caller, gname);
            s2 == s && r == Err::<(), OpError>(OpError::GroupLocked)
        }),
        in_store(s.groups, caller) ==> ({
            let (s2, r) = lock_and_assign_spec(s, caller, gname);
            s2 == s && r == Err::<(), OpError>(OpError::GroupLocked)
        }),
        in_group(s.groups[group_index(s.groups, gname)], caller)
            ==> who_do_i_gift_spec(s, caller, gname) is Ok,
        list_members_spec(s, gname) is Ok,
{
    let i = group_index(s.groups, gname);
    let g = s.groups[i];
    if in_group(g, caller) {
        assert(group_ok(g));
        lemma_group_members_unique(s.groups, i);
        let k = member_index(g, caller);
        assert(0 <= k < g.members.len() && g.members[k].name == caller);
        let n = g.members.len() as int;
        if k < n - 1 {
            assert(g.members[k].recipient == Some(g.members[k + 1].name));
        } else {
            assert(g.members[k].recipient == Some(g.members[0].name));
        }
    }
}

} // verus!
