//! The store: the single in-process collection of groups, with every
//! operation of the membership, assignment, and lookup engines.
//!
//! Each operation validates first and mutates only after every check has
//! passed, so a failing call leaves the store exactly as it was; the
//! contracts promise the transitions of `crate::transitions` verbatim.

use vstd::prelude::*;

use crate::model::{
    Group, GroupV, OpError, Person, PersonV, Role, StoreV, groups_view, has_group, in_group,
    in_store, is_admin, another_admin, has_admin, lemma_admin_at_index, lemma_group_index_of, lemma_group_members_unique, lemma_member_index_of, lemma_wf_push_group,
    lemma_wf_push_member, lemma_wf_remove_group, lemma_wf_remove_member, lemma_wf_set_role,
    lemma_wf_update_same_names, store_wf, group_ok, person_names_unique, group_names_unique,
    group_ids_unique, ids_below, all_groups_ok, locked_group_ok, open_group_ok,
};
use crate::transitions::{
    GroupSummaryV, MemberV, assigned_members, create_group_spec, delete_group_spec,
    demote_admin_spec, join_group_spec, joined_role, lemma_assigned_group_ok, list_groups_spec,
    list_members_spec,
    lock_and_assign_spec, promote_admin_spec, quit_group_spec, who_do_i_gift_spec,
};

verus! {

/// One row of `Store::list_groups`.
pub struct GroupSummary {
    pub id: u64,
    pub name: String,
    pub member_count: usize,
    pub locked: bool,
}

impl View for GroupSummary {
    type V = GroupSummaryV;

    open spec fn view(&self) -> GroupSummaryV {
        GroupSummaryV {
            id: self.id as nat,
            name: self.name@,
            member_count: self.member_count as nat,
            locked: self.locked,
        }
    }
}

/// One row of `Store::list_members`.
pub struct MemberEntry {
    pub name: String,
    pub role: Role,
}

impl View for MemberEntry {
    type V = MemberV;

    open spec fn view(&self) -> MemberV {
        MemberV { name: self.name@, role: self.role }
    }
}

/// The index of the group named `gname`, if any.
fn find_group(groups: &Vec<Group>, gname: &String) -> (r: Option<usize>)
    ensures
        match r {
            Some(i) => i < groups@.len() && groups_view(groups@)[i as int].name == gname@,
            None => !has_group(groups_view(groups@), gname@),
        },
{
    let n = groups.len();
    let mut i: usize = 0;
    while i < n
        invariant
            n == groups@.len(),
            i <= n,
            forall|j: int| 0 <= j < i ==> groups_view(groups@)[j].name != gname@,
        decreases n - i,
    {
        if groups[i].name == *gname {
            return Some(i);
        }
        i = i + 1;
    }
    None
}

/// The index of the member of `g` named `name`, if any.
fn find_member(g: &Group, name: &String) -> (r: Option<usize>)
    ensures
        match r {
            Some(k) => k < g@.members.len() && g@.members[k as int].name == name@,
            None => !in_group(g@, name@),
        },
{
    let n = g.members.len();
    let mut k: usize = 0;
    while k < n
        invariant
            n == g@.members.len(),
            k <= n,
            forall|j: int| 0 <= j < k ==> g@.members[j].name != name@,
        decreases n - k,
    {
        if g.members[k].name == *name {
            return Some(k);
        }
        k = k + 1;
    }
    None
}

/// True when some administrator of `g` carries a name other than `name`.
fn has_other_admin(g: &Group, name: &String) -> (b: bool)
    ensures
        b == another_admin(g@, name@),
{
    let n = g.members.len();
    let mut k: usize = 0;
    while k < n
        invariant
            n == g@.members.len(),
            k <= n,
            forall|j: int|
                0 <= j < k ==> !(g@.members[j].role == Role::Admin && g@.members[j].name
                    != name@),
        decreases n - k,
    {
        let is_adm = match g.members[k].role {
            Role::Admin => true,
            Role::Member => false,
        };
        if is_adm && !(g.members[k].name == *name) {
            proof {
                assert(g@.members[k as int].role == Role::Admin);
                assert(g@.members[k as int].name != name@);
            }
            return true;
        }
        k = k + 1;
    }
    false
}

/// The member list after assignment: each member keeps their name and
/// role and gifts the next member in storage order; the last gifts the
/// first.
fn build_assigned(g: &Group) -> (v: Vec<Person>)
    requires
        g@.members.len() >= 2,
    ensures
        v@.map_values(|p: Person| p@) == assigned_members(g@.members),
{
    let n = g.members.len();
    let mut out: Vec<Person> = Vec::new();
    let mut j: usize = 0;
    while j < n
        invariant
            n == g@.members.len(),
            2 <= n,
            j <= n,
            out@.len() == j,
            forall|q: int|
                0 <= q < j ==> #[trigger] out@[q]@ == assigned_members(g@.members)[q],
        decreases n - j,
    {
        let nm = g.members[j].name.clone();
        let role = g.members[j].role;
        let succ = if j + 1 == n {
            0
        } else {
            j + 1
        };
        let rec = g.members[succ].name.clone();
        out.push(Person { name: nm, recipient: Some(rec), role });
        j = j + 1;
    }
    proof {
        assert(out@.map_values(|p: Person| p@) =~~= assigned_members(g@.members));
    }
    out
}

/// True when the member at `(i, a)` shares a name with any other member
/// position in the whole store.
pub open spec fn name_clashes(gs: Seq<GroupV>, i: int, a: int) -> bool {
    exists|j: int, b: int|
        0 <= j < gs.len() && 0 <= b < gs[j].members.len() && !(j == i && b == a)
            && gs[j].members[b].name == gs[i].members[a].name
}

/// True when some other member position of the store carries the same name
/// as the member at `(i, a)`.
fn clashes_with_other(groups: &Vec<Group>, i: usize, a: usize) -> (b: bool)
    requires
        i < groups@.len(),
        a < groups_view(groups@)[i as int].members.len(),
    ensures
        b == name_clashes(groups_view(groups@), i as int, a as int),
{
    let gv = Ghost(groups_view(groups@));
    let name = &groups[i].members[a].name;
    let n = groups.len();
    let mut j: usize = 0;
    while j < n
        invariant
            gv@ == groups_view(groups@),
            i < groups@.len(),
            a < gv@[i as int].members.len(),
            name@ == gv@[i as int].members[a as int].name,
            j <= n,
            n == groups@.len(),
            forall|p: int, q: int|
                0 <= p < j && 0 <= q < gv@[p].members.len() && !(p == i && q == a) ==> gv@[p]
                    .members[q].name != name@,
        decreases n - j,
    {
        let m = groups[j].members.len();
        let mut b: usize = 0;
        while b < m
            invariant
                gv@ == groups_view(groups@),
                i < groups@.len(),
                a < gv@[i as int].members.len(),
                name@ == gv@[i as int].members[a as int].name,
                j < n,
                n == groups@.len(),
                b <= m,
                m == gv@[j as int].members.len(),
                forall|p: int, q: int|
                    0 <= p < j && 0 <= q < gv@[p].members.len() && !(p == i && q == a) ==> gv@[p]
                        .members[q].name != name@,
                forall|q: int|
                    0 <= q < b && !(j == i && q == a) ==> gv@[j as int].members[q].name != name@,
            decreases m - b,
        {
            if !(j == i && b == a) {
                if groups[j].members[b].name == *name {
                    proof {
                        let target = gv@[i as int].members[a as int].name;
                        assert(gv@[j as int].members[b as int].name == target);
                    }
                    return true;
                }
            }
            b = b + 1;
        }
        j = j + 1;
    }
    false
}

/// True when no two member positions of the store share a name.
fn check_person_names(groups: &Vec<Group>) -> (b: bool)
    ensures
        b == person_names_unique(groups_view(groups@)),
{
    let gv = Ghost(groups_view(groups@));
    let n = groups.len();
    let mut i: usize = 0;
    while i < n
        invariant
            gv@ == groups_view(groups@),
            i <= n,
            n == groups@.len(),
            forall|p: int, q: int|
                0 <= p < i && 0 <= q < gv@[p].members.len() ==> !(#[trigger] name_clashes(
                    gv@,
                    p,
                    q,
                )),
        decreases n - i,
    {
        let m = groups[i].members.len();
        let mut a: usize = 0;
        while a < m
            invariant
                gv@ == groups_view(groups@),
                i < n,
                n == groups@.len(),
                a <= m,
                m == gv@[i as int].members.len(),
                forall|p: int, q: int|
                    0 <= p < i && 0 <= q < gv@[p].members.len() ==> !(#[trigger] name_clashes(
                        gv@,
                        p,
                        q,
                    )),
                forall|q: int| 0 <= q < a ==> !(#[trigger] name_clashes(gv@, i as int, q)),
            decreases m - a,
        {
            if clashes_with_other(groups, i, a) {
                proof {
                    let (j, b) = choose|j: int, b: int|
                        0 <= j < gv@.len() && 0 <= b < gv@[j].members.len() && !(j == i && b == a)
                            && gv@[j].members[b].name == gv@[i as int].members[a as int].name;
                    assert(!person_names_unique(gv@)) by {
                        if person_names_unique(gv@) {
                            assert(gv@[j].members[b].name != gv@[i as int].members[a as int].name);
                        }
                    }
                }
                return false;
            }
            a = a + 1;
        }
        i = i + 1;
    }
    proof {
        assert forall|x: int, a: int, y: int, b: int|
            0 <= x < gv@.len() && 0 <= a < gv@[x].members.len() && 0 <= y < gv@.len() && 0 <= b
                < gv@[y].members.len() && !(x == y && a == b) implies gv@[x].members[a].name
            != gv@[y].members[b].name by {
            assert(!name_clashes(gv@, x, a));
        }
    }
    true
}

/// True when no two groups share a name or a handle.
fn check_groups_distinct(groups: &Vec<Group>) -> (b: bool)
    ensures
        b == (group_names_unique(groups_view(groups@)) && group_ids_unique(groups_view(groups@))),
{
    let gv = Ghost(groups_view(groups@));
    let n = groups.len();
    let mut i: usize = 0;
    while i < n
        invariant
            gv@ == groups_view(groups@),
            i <= n,
            n == groups@.len(),
            forall|p: int, q: int|
                0 <= p < i && p < q < n ==> gv@[p].name != gv@[q].name && gv@[p].id != gv@[q].id,
        decreases n - i,
    {
        let mut j: usize = i + 1;
        while j < n
            invariant
                gv@ == groups_view(groups@),
                i < j <= n,
                n == groups@.len(),
                forall|p: int, q: int|
                    0 <= p < i && p < q < n ==> gv@[p].name != gv@[q].name && gv@[p].id != gv@[q].id,
                forall|q: int|
                    i < q < j ==> gv@[i as int].name != gv@[q].name && gv@[i as int].id != gv@[q].id,
            decreases n - j,
        {
            if groups[i].name == groups[j].name || groups[i].id == groups[j].id {
                proof {
                    let a = gv@[i as int];
                    let c = gv@[j as int];
                    assert(a.name == c.name || a.id == c.id);
                }
                return false;
            }
            j = j + 1;
        }
        i = i + 1;
    }
    proof {
        assert forall|x: int, y: int|
            0 <= x < gv@.len() && 0 <= y < gv@.len() && x != y implies gv@[x].name != gv@[y].name
            && gv@[x].id != gv@[y].id by {
            if x < y {
                assert(gv@[x].name != gv@[y].name && gv@[x].id != gv@[y].id);
            }
        }
    }
    true
}

/// True when every group's handle lies below `next_id`.
fn check_ids_below(groups: &Vec<Group>, next_id: u64) -> (b: bool)
    ensures
        b == ids_below(groups_view(groups@), next_id as nat),
{
    let n = groups.len();
    let mut i: usize = 0;
    while i < n
        invariant
            i <= n,
            n == groups@.len(),
            forall|p: int| 0 <= p < i ==> #[trigger] groups_view(groups@)[p].id < next_id as nat,
        decreases n - i,
    {
        if groups[i].id >= next_id {
            proof {
                assert(groups_view(groups@)[i as int].id >= next_id as nat);
            }
            return false;
        }
        i = i + 1;
    }
    true
}

/// True when the group is sound on its own: a non-empty group has an
/// administrator, a locked group holds the full rotation of recipients,
/// and an open group holds none at all.
fn check_group(g: &Group) -> (b: bool)
    ensures
        b == group_ok(g@),
{
    let n = g.members.len();
    if n >= 1 {
        let mut k: usize = 0;
        let mut found: bool = false;
        while k < n
            invariant
                k <= n,
                n == g@.members.len(),
                found == exists|q: int|
                    0 <= q < k && #[trigger] g@.members[q].role == Role::Admin,
            decreases n - k,
        {
            let is_adm = match g.members[k].role {
                Role::Admin => true,
                Role::Member => false,
            };
            if is_adm {
                proof {
                    assert(g@.members[k as int].role == Role::Admin);
                }
                found = true;
            }
            k = k + 1;
        }
        if !found {
            proof {
                assert(!has_admin(g@));
            }
            return false;
        }
        proof {
            assert(has_admin(g@));
        }
    }
    if g.locked {
        if n < 2 {
            return false;
        }
        let mut k: usize = 0;
        while k < n
            invariant
                g@.locked,
                k <= n,
                2 <= n,
                n == g@.members.len(),
                forall|q: int|
                    0 <= q < k && q < n - 1 ==> #[trigger] g@.members[q].recipient == Some(
                        g@.members[q + 1].name,
                    ),
                k > 0 && k == n ==> g@.members[n - 1].recipient == Some(g@.members[0].name),
            decreases n - k,
        {
            let succ = if k + 1 == n {
                0
            } else {
                k + 1
            };
            let ok = match &g.members[k].recipient {
                Some(rec) => *rec == g.members[succ].name,
                None => false,
            };
            if !ok {
                proof {
                    if (k as int) < n - 1 {
                        assert(g@.members[k as int].recipient != Some(g@.members[k as int + 1].name));
                    } else {
                        assert(g@.members[n - 1].recipient != Some(g@.members[0].name));
                    }
                    assert(!locked_group_ok(g@)) by {
                        if locked_group_ok(g@) {
                            if (k as int) < n - 1 {
                                assert(g@.members[k as int].recipient == Some(
                                    g@.members[k as int + 1].name,
                                ));
                            }
                        }
                    }
                }
                return false;
            }
            k = k + 1;
        }
        true
    } else {
        let mut k: usize = 0;
        while k < n
            invariant
                !g@.locked,
                k <= n,
                n == g@.members.len(),
                forall|q: int| 0 <= q < k ==> (#[trigger] g@.members[q].recipient) is None,
            decreases n - k,
        {
            let has_rec = match &g.members[k].recipient {
                Some(_) => true,
                None => false,
            };
            if has_rec {
                proof {
                    assert((g@.members[k as int].recipient) is Some);
                    assert(!open_group_ok(g@)) by {
                        if open_group_ok(g@) {
                            assert((g@.members[k as int].recipient) is None);
                        }
                    }
                }
                return false;
            }
            k = k + 1;
        }
        true
    }
}

/// True when every group of the store is sound on its own.
fn check_all_groups(groups: &Vec<Group>) -> (b: bool)
    ensures
        b == all_groups_ok(groups_view(groups@)),
{
    let n = groups.len();
    let mut i: usize = 0;
    while i < n
        invariant
            i <= n,
            n == groups@.len(),
            forall|p: int| 0 <= p < i ==> #[trigger] group_ok(groups_view(groups@)[p]),
        decreases n - i,
    {
        if !check_group(&groups[i]) {
            proof {
                assert(!group_ok(groups_view(groups@)[i as int]));
            }
            return false;
        }
        i = i + 1;
    }
    true
}

/// The one in-process collection of all groups. Created empty or rebuilt
/// from a snapshot, then mutated only through the operations below. Each
/// operation takes the store by exclusive (`&mut`) access for its whole
/// duration, so no caller ever observes a partially mutated state; a
/// failing operation leaves the store exactly as it was.
pub struct Store {
    groups: Vec<Group>,
    next_id: u64,
}

impl View for Store {
    type V = StoreV;

    closed spec fn view(&self) -> StoreV {
        StoreV { groups: groups_view(self.groups@), next_id: self.next_id as nat }
    }
}

impl Store {
    /// The store's invariant; every operation requires and preserves it.
    pub open spec fn wf(&self) -> bool {
        store_wf(self@)
    }

    /// A store with no groups at all.
    pub fn new() -> (s: Store)
        ensures
            s@ == (StoreV { groups: Seq::<GroupV>::empty(), next_id: 0 }),
            s.wf(),
    {
        let s = Store { groups: Vec::new(), next_id: 0 };
        proof {
            assert(s@.groups =~~= Seq::<GroupV>::empty());
        }
        s
    }

    /// Rebuilds a store from persisted parts: the groups and the next
    /// handle to give out. Returns the store exactly when the parts
    /// satisfy the store's invariant; a snapshot that does not is refused.
    pub fn from_snapshot(groups: Vec<Group>, next_id: u64) -> (r: Option<Store>)
        ensures
            ({
                let sv = StoreV { groups: groups_view(groups@), next_id: next_id as nat };
                &&& r matches Some(st) ==> st@ == sv
                &&& (r is Some) == store_wf(sv)
            }),
    {
        if !check_groups_distinct(&groups) {
            return None;
        }
        if !check_ids_below(&groups, next_id) {
            return None;
        }
        if !check_person_names(&groups) {
            return None;
        }
        if !check_all_groups(&groups) {
            return None;
        }
        Some(Store { groups, next_id })
    }

    /// True when somebody named `name` belongs to any group.
    pub fn person_exists(&self, name: &str) -> (b: bool)
        ensures
            b == in_store(self@.groups, name@),
    {
        let name_o: String = name.to_owned();
        let n = self.groups.len();
        let mut i: usize = 0;
        while i < n
            invariant
                n == self@.groups.len(),
                name_o@ == name@,
                i <= n,
                forall|j: int| 0 <= j < i ==> !in_group(self@.groups[j], name@),
            decreases n - i,
        {
            if find_member(&self.groups[i], &name_o).is_some() {
                proof {
                    assert(in_group(self@.groups[i as int], name@));
                }
                return true;
            }
            i = i + 1;
        }
        false
    }

    /// The handle that the next created group will receive. Handles are
    /// allocated monotonically and never reused.
    pub fn next_group_id(&self) -> (r: u64)
        ensures
            r as nat == self@.next_id,
    {
        self.next_id
    }

    /// The groups themselves, for a caller that needs to walk or persist
    /// the whole state.
    pub fn groups(&self) -> (r: &Vec<Group>)
        ensures
            groups_view(r@) == self@.groups,
    {
        &self.groups
    }

    /// Creates an open group named `group_name` whose sole member and
    /// administrator is `caller`, and returns its handle.
    pub fn create_group(&mut self, caller: &str, group_name: &str) -> (r: Result<u64, OpError>)
        requires
            old(self).wf(),
            old(self)@.next_id < u64::MAX,
        ensures
            final(self).wf(),
            ({
                let (s2, rs) = create_group_spec(old(self)@, caller@, group_name@);
                &&& final(self)@ == s2
                &&& match r {
                    Ok(id) => rs == Ok::<nat, OpError>(id as nat),
                    Err(e) => rs == Err::<nat, OpError>(e),
                }
            }),
    {
        if caller.is_empty() || group_name.is_empty() {
            return Err(OpError::BadInput);
        }
        if self.person_exists(caller) {
            return Err(OpError::PersonAlreadyInGroup);
        }
        let gname: String = group_name.to_owned();
        if find_group(&self.groups, &gname).is_some() {
            proof {
                assert(has_group(self@.groups, group_name@));
            }
            return Err(OpError::GroupNameTaken);
        }
        let id = self.next_id;
        let founder = Person { name: caller.to_owned(), recipient: None, role: Role::Admin };
        let g = Group { id, name: gname, members: vec![founder], locked: false };
        proof {
            lemma_wf_push_group(self@, caller@, group_name@);
        }
        self.groups.push(g);
        self.next_id = id + 1;
        proof {
            assert(self@.groups =~~= old(self)@.groups.push(
                GroupV {
                    id: old(self)@.next_id,
                    name: group_name@,
                    members: seq![
                        PersonV { name: caller@, recipient: None, role: Role::Admin },
                    ],
                    locked: false,
                },
            ));
        }
        Ok(id)
    }

    /// Appends `caller` to the open group named `group_name`. A joiner of
    /// an empty group re-founds it and becomes its administrator.
    pub fn join_group(&mut self, caller: &str, group_name: &str) -> (r: Result<(), OpError>)
        requires
            old(self).wf(),
        ensures
            final(self).wf(),
            ({
                let (s2, rs) = join_group_spec(old(self)@, caller@, group_name@);
                final(self)@ == s2 && r == rs
            }),
    {
        if caller.is_empty() || group_name.is_empty() {
            return Err(OpError::BadInput);
        }
        if self.person_exists(caller) {
            return Err(OpError::PersonAlreadyInGroup);
        }
        let gname: String = group_name.to_owned();
        let found = find_group(&self.groups, &gname);
        if found.is_none() {
            return Err(OpError::GroupNotFound);
        }
        let i = found.unwrap();
        proof {
            lemma_group_index_of(self@.groups, group_name@, i as int);
        }
        if self.groups[i].locked {
            return Err(OpError::GroupLocked);
        }
        let role = if self.groups[i].members.len() == 0 {
            Role::Admin
        } else {
            Role::Member
        };
        let p = Person { name: caller.to_owned(), recipient: None, role };
        proof {
            lemma_wf_push_member(self@, i as int, p@);
        }
        let g = &mut self.groups[i];
        g.members.push(p);
        proof {
            assert(self@.groups =~~= old(self)@.groups.update(
                i as int,
                GroupV {
                    members: old(self)@.groups[i as int].members.push(
                        PersonV {
                            name: caller@,
                            recipient: None,
                            role: joined_role(old(self)@.groups[i as int]),
                        },
                    ),
                    ..old(self)@.groups[i as int]
                },
            ));
        }
        Ok(())
    }

    /// Removes `caller` from the open group named `group_name`. The sole
    /// administrator may not leave while other members remain.
    pub fn quit_group(&mut self, caller: &str, group_name: &str) -> (r: Result<(), OpError>)
        requires
            old(self).wf(),
        ensures
            final(self).wf(),
            ({
                let (s2, rs) = quit_group_spec(old(self)@, caller@, group_name@);
                final(self)@ == s2 && r == rs
            }),
    {
        if caller.is_empty() || group_name.is_empty() {
            return Err(OpError::BadInput);
        }
        if !self.person_exists(caller) {
            return Err(OpError::PersonNotFound);
        }
        let gname: String = group_name.to_owned();
        let found = find_group(&self.groups, &gname);
        if found.is_none() {
            return Err(OpError::GroupNotFound);
        }
        let i = found.unwrap();
        proof {
            lemma_group_index_of(self@.groups, group_name@, i as int);
            lemma_group_members_unique(self@.groups, i as int);
        }
        if self.groups[i].locked {
            return Err(OpError::GroupLocked);
        }
        let caller_o: String = caller.to_owned();
        let found_m = find_member(&self.groups[i], &caller_o);
        if found_m.is_none() {
            return Err(OpError::PersonNotFound);
        }
        let k = found_m.unwrap();
        proof {
            lemma_member_index_of(self@.groups[i as int], caller@, k as int);
            lemma_admin_at_index(self@.groups[i as int], caller@, k as int);
        }
        let gref = &self.groups[i];
        let is_adm = match gref.members[k].role {
            Role::Admin => true,
            Role::Member => false,
        };
        let member_count = gref.members.len();
        if is_adm && member_count > 1 && !has_other_admin(gref, &caller_o) {
            return Err(OpError::CannotRemoveLastAdmin);
        }
        proof {
            let g = self@.groups[i as int];
            assert(group_ok(self@.groups[i as int]));
            if member_count > 1 {
                if !is_adm {
                    assert(has_admin(g));
                    let a = choose|a: int|
                        0 <= a < g.members.len() && g.members[a].role == Role::Admin;
                    assert(a != k as int && g.members[a].role == Role::Admin);
                } else {
                    let a = choose|a: int|
                        0 <= a < g.members.len() && g.members[a].role == Role::Admin
                            && g.members[a].name != caller@;
                    assert(a != k as int && g.members[a].role == Role::Admin);
                }
            }
            lemma_wf_remove_member(self@, i as int, k as int);
        }
        let g = &mut self.groups[i];
        g.members.remove(k);
        proof {
            old(self)@.groups[i as int].members.remove_ensures(k as int);
            assert(self@.groups =~~= old(self)@.groups.update(
                i as int,
                GroupV {
                    members: old(self)@.groups[i as int].members.remove(k as int),
                    ..old(self)@.groups[i as int]
                },
            ));
        }
        Ok(())
    }

    /// Removes the whole open group named `group_name`; only one of its
    /// administrators may do so.
    pub fn delete_group(&mut self, caller: &str, group_name: &str) -> (r: Result<(), OpError>)
        requires
            old(self).wf(),
        ensures
            final(self).wf(),
            ({
                let (s2, rs) = delete_group_spec(old(self)@, caller@, group_name@);
                final(self)@ == s2 && r == rs
            }),
    {
        if caller.is_empty() || group_name.is_empty() {
            return Err(OpError::BadInput);
        }
        if !self.person_exists(caller) {
            return Err(OpError::PersonNotFound);
        }
        let gname: String = group_name.to_owned();
        let found = find_group(&self.groups, &gname);
        if found.is_none() {
            return Err(OpError::GroupNotFound);
        }
        let i = found.unwrap();
        proof {
            lemma_group_index_of(self@.groups, group_name@, i as int);
            lemma_group_members_unique(self@.groups, i as int);
        }
        if self.groups[i].locked {
            return Err(OpError::GroupLocked);
        }
        let caller_o: String = caller.to_owned();
        let found_m = find_member(&self.groups[i], &caller_o);
        if found_m.is_none() {
            proof {
                assert(!is_admin(self@.groups[i as int], caller@));
            }
            return Err(OpError::InsufficientRole);
        }
        let k = found_m.unwrap();
        proof {
            lemma_member_index_of(self@.groups[i as int], caller@, k as int);
            lemma_admin_at_index(self@.groups[i as int], caller@, k as int);
        }
        let is_adm = match self.groups[i].members[k].role {
            Role::Admin => true,
            Role::Member => false,
        };
        if !is_adm {
            return Err(OpError::InsufficientRole);
        }
        proof {
            lemma_wf_remove_group(self@, i as int);
        }
        self.groups.remove(i);
        proof {
            old(self)@.groups.remove_ensures(i as int);
            assert(self@.groups =~~= old(self)@.groups.remove(i as int));
        }
        Ok(())
    }

    /// Raises `target`, a member of the group named `group_name`, to
    /// administrator; only an administrator of that group may do so.
    #[verifier::rlimit(80)]
    pub fn promote_admin(&mut self, caller: &str, group_name: &str, target: &str) -> (r: Result<
        (),
        OpError,
    >)
        requires
            old(self).wf(),
        ensures
            final(self).wf(),
            ({
                let (s2, rs) = promote_admin_spec(old(self)@, caller@, group_name@, target@);
                final(self)@ == s2 && r == rs
            }),
    {
        if caller.is_empty() || group_name.is_empty() || target.is_empty() {
            return Err(OpError::BadInput);
        }
        if !self.person_exists(caller) || !self.person_exists(target) {
            return Err(OpError::PersonNotFound);
        }
        let gname: String = group_name.to_owned();
        let found = find_group(&self.groups, &gname);
        if found.is_none() {
            return Err(OpError::GroupNotFound);
        }
        let i = found.unwrap();
        proof {
            lemma_group_index_of(self@.groups, group_name@, i as int);
            lemma_group_members_unique(self@.groups, i as int);
        }
        let caller_o: String = caller.to_owned();
        let found_c = find_member(&self.groups[i], &caller_o);
        if found_c.is_none() {
            proof {
                assert(!is_admin(self@.groups[i as int], caller@));
            }
            return Err(OpError::InsufficientRole);
        }
        let k = found_c.unwrap();
        proof {
            lemma_member_index_of(self@.groups[i as int], caller@, k as int);
            lemma_admin_at_index(self@.groups[i as int], caller@, k as int);
        }
        let is_adm = match self.groups[i].members[k].role {
            Role::Admin => true,
            Role::Member => false,
        };
        if !is_adm {
            return Err(OpError::InsufficientRole);
        }
        let target_o: String = target.to_owned();
        let found_t = find_member(&self.groups[i], &target_o);
        if found_t.is_none() {
            return Err(OpError::PersonNotFound);
        }
        let t = found_t.unwrap();
        proof {
            lemma_member_index_of(self@.groups[i as int], target@, t as int);
        }
        proof {
            lemma_wf_set_role(self@, i as int, t as int, Role::Admin);
        }
        let g = &mut self.groups[i];
        let mut p = g.members.remove(t);
        p.role = Role::Admin;
        g.members.insert(t, p);
        proof {
            let old_g = old(self)@.groups[i as int];
            let p2 = PersonV { role: Role::Admin, ..old_g.members[t as int] };
            let g2 = GroupV { members: old_g.members.update(t as int, p2), ..old_g };
            assert(self@.groups =~~= old(self)@.groups.update(i as int, g2));
        }
        Ok(())
    }

    /// Steps `caller` down from administrator to plain member; refused if
    /// they are the group's only administrator.
    #[verifier::rlimit(80)]
    pub fn demote_admin(&mut self, caller: &str, group_name: &str) -> (r: Result<(), OpError>)
        requires
            old(self).wf(),
        ensures
            final(self).wf(),
            ({
                let (s2, rs) = demote_admin_spec(old(self)@, caller@, group_name@);
                final(self)@ == s2 && r == rs
            }),
    {
        if caller.is_empty() || group_name.is_empty() {
            return Err(OpError::BadInput);
        }
        if !self.person_exists(caller) {
            return Err(OpError::PersonNotFound);
        }
        let gname: String = group_name.to_owned();
        let found = find_group(&self.groups, &gname);
        if found.is_none() {
            return Err(OpError::GroupNotFound);
        }
        let i = found.unwrap();
        proof {
            lemma_group_index_of(self@.groups, group_name@, i as int);
            lemma_group_members_unique(self@.groups, i as int);
        }
        let caller_o: String = caller.to_owned();
        let found_c = find_member(&self.groups[i], &caller_o);
        if found_c.is_none() {
            proof {
                assert(!is_admin(self@.groups[i as int], caller@));
            }
            return Err(OpError::InsufficientRole);
        }
        let k = found_c.unwrap();
        proof {
            lemma_member_index_of(self@.groups[i as int], caller@, k as int);
            lemma_admin_at_index(self@.groups[i as int], caller@, k as int);
        }
        let is_adm = match self.groups[i].members[k].role {
            Role::Admin => true,
            Role::Member => false,
        };
        if !is_adm {
            return Err(OpError::InsufficientRole);
        }
        if !has_other_admin(&self.groups[i], &caller_o) {
            return Err(OpError::CannotRemoveLastAdmin);
        }
        proof {
            let old_g = self@.groups[i as int];
            let a = choose|a: int|
                0 <= a < old_g.members.len() && old_g.members[a].role == Role::Admin
                    && old_g.members[a].name != caller@;
            assert(a != k as int);
            lemma_wf_set_role(self@, i as int, k as int, Role::Member);
        }
        let g = &mut self.groups[i];
        let mut p = g.members.remove(k);
        p.role = Role::Member;
        g.members.insert(k, p);
        proof {
            let old_g = old(self)@.groups[i as int];
            let p2 = PersonV { role: Role::Member, ..old_g.members[k as int] };
            let g2 = GroupV { members: old_g.members.update(k as int, p2), ..old_g };
            assert(self@.groups =~~= old(self)@.groups.update(i as int, g2));
        }
        Ok(())
    }

    /// Locks the group named `group_name` and assigns every member a
    /// recipient by the fixed rotation; only an administrator of a group of
    /// at least two members may do so, and only once.
    pub fn lock_and_assign(&mut self, caller: &str, group_name: &str) -> (r: Result<(), OpError>)
        requires
            old(self).wf(),
        ensures
            final(self).wf(),
            ({
                let (s2, rs) = lock_and_assign_spec(old(self)@, caller@, group_name@);
                final(self)@ == s2 && r == rs
            }),
    {
        if caller.is_empty() || group_name.is_empty() {
            return Err(OpError::BadInput);
        }
        if !self.person_exists(caller) {
            return Err(OpError::PersonNotFound);
        }
        let gname: String = group_name.to_owned();
        let found = find_group(&self.groups, &gname);
        if found.is_none() {
            return Err(OpError::GroupNotFound);
        }
        let gi = found.unwrap();
        proof {
            lemma_group_index_of(self@.groups, group_name@, gi as int);
            lemma_group_members_unique(self@.groups, gi as int);
        }
        if self.groups[gi].locked {
            return Err(OpError::GroupLocked);
        }
        let caller_o: String = caller.to_owned();
        let found_c = find_member(&self.groups[gi], &caller_o);
        if found_c.is_none() {
            proof {
                assert(!is_admin(self@.groups[gi as int], caller@));
            }
            return Err(OpError::InsufficientRole);
        }
        let k = found_c.unwrap();
        proof {
            lemma_member_index_of(self@.groups[gi as int], caller@, k as int);
            lemma_admin_at_index(self@.groups[gi as int], caller@, k as int);
        }
        let is_adm = match self.groups[gi].members[k].role {
            Role::Admin => true,
            Role::Member => false,
        };
        if !is_adm {
            return Err(OpError::InsufficientRole);
        }
        let n = self.groups[gi].members.len();
        if n < 2 {
            return Err(OpError::InsufficientMembers);
        }
        let new_members = build_assigned(&self.groups[gi]);
        proof {
            lemma_assigned_group_ok(self@.groups[gi as int]);
            let old_g = self@.groups[gi as int];
            let g2 = GroupV { members: assigned_members(old_g.members), locked: true, ..old_g };
            lemma_wf_update_same_names(self@, gi as int, g2);
        }
        let g = &mut self.groups[gi];
        g.members = new_members;
        g.locked = true;
        proof {
            let old_g = old(self)@.groups[gi as int];
            let g2 = GroupV { members: assigned_members(old_g.members), locked: true, ..old_g };
            assert(self@.groups =~~= old(self)@.groups.update(gi as int, g2));
        }
        Ok(())
    }

    /// Returns whom `caller` gifts in the locked group named `group_name`.
    pub fn who_do_i_gift(&self, caller: &str, group_name: &str) -> (r: Result<String, OpError>)
        requires
            self.wf(),
        ensures
            ({
                let rs = who_do_i_gift_spec(self@, caller@, group_name@);
                match r {
                    Ok(name) => rs == Ok::<Seq<char>, OpError>(name@),
                    Err(e) => rs == Err::<Seq<char>, OpError>(e),
                }
            }),
    {
        if caller.is_empty() || group_name.is_empty() {
            return Err(OpError::BadInput);
        }
        let gname: String = group_name.to_owned();
        let found = find_group(&self.groups, &gname);
        if found.is_none() {
            return Err(OpError::GroupNotFound);
        }
        let i = found.unwrap();
        proof {
            lemma_group_index_of(self@.groups, group_name@, i as int);
            lemma_group_members_unique(self@.groups, i as int);
        }
        if !self.groups[i].locked {
            return Err(OpError::GroupNotLocked);
        }
        let caller_o: String = caller.to_owned();
        let found_c = find_member(&self.groups[i], &caller_o);
        if found_c.is_none() {
            return Err(OpError::PersonNotFound);
        }
        let k = found_c.unwrap();
        proof {
            lemma_member_index_of(self@.groups[i as int], caller@, k as int);
        }
        let gref = &self.groups[i];
        match &gref.members[k].recipient {
            Some(rec) => Ok(rec.clone()),
            None => Err(OpError::PersonNotFound),
        }
    }

    /// One summary per group: handle, name, member count, and whether it is
    /// locked.
    pub fn list_groups(&self) -> (v: Vec<GroupSummary>)
        ensures
            v@.map_values(|x: GroupSummary| x@) == list_groups_spec(self@),
    {
        let n = self.groups.len();
        let mut out: Vec<GroupSummary> = Vec::new();
        let mut i: usize = 0;
        while i < n
            invariant
                n == self@.groups.len(),
                i <= n,
                out@.len() == i,
                forall|q: int|
                    0 <= q < i ==> #[trigger] out@[q]@ == list_groups_spec(self@)[q],
            decreases n - i,
        {
            let gref = &self.groups[i];
            out.push(
                GroupSummary {
                    id: gref.id,
                    name: gref.name.clone(),
                    member_count: gref.members.len(),
                    locked: gref.locked,
                },
            );
            i = i + 1;
        }
        proof {
            assert(out@.map_values(|x: GroupSummary| x@) =~~= list_groups_spec(self@));
        }
        out
    }

    /// The members of the group named `group_name`, with their roles, in
    /// storage order.
    pub fn list_members(&self, group_name: &str) -> (r: Result<Vec<MemberEntry>, OpError>)
        requires
            self.wf(),
        ensures
            ({
                let rs = list_members_spec(self@, group_name@);
                match r {
                    Ok(v) => rs == Ok::<Seq<MemberV>, OpError>(
                        v@.map_values(|x: MemberEntry| x@),
                    ),
                    Err(e) => rs == Err::<Seq<MemberV>, OpError>(e),
                }
            }),
    {
        if group_name.is_empty() {
            return Err(OpError::BadInput);
        }
        let gname: String = group_name.to_owned();
        let found = find_group(&self.groups, &gname);
        if found.is_none() {
            return Err(OpError::GroupNotFound);
        }
        let i = found.unwrap();
        proof {
            lemma_group_index_of(self@.groups, group_name@, i as int);
        }
        let n = self.groups[i].members.len();
        let mut out: Vec<MemberEntry> = Vec::new();
        let mut k: usize = 0;
        while k < n
            invariant
                i < self.groups@.len(),
                n == self@.groups[i as int].members.len(),
                k <= n,
                out@.len() == k,
                forall|q: int|
                    0 <= q < k ==> #[trigger] out@[q]@ == (MemberV {
                        name: self@.groups[i as int].members[q].name,
                        role: self@.groups[i as int].members[q].role,
                    }),
            decreases n - k,
        {
            let gref = &self.groups[i];
            out.push(MemberEntry { name: gref.members[k].name.clone(), role: gref.members[k].role });
            k = k + 1;
        }
        proof {
            assert(out@.map_values(|x: MemberEntry| x@) =~~= self@.groups[i as int].members.map_values(
                |p: PersonV| MemberV { name: p.name, role: p.role },
            ));
        }
        Ok(out)
    }
}

} // verus!
