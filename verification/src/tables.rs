//! The tables of the record store as contracts see them: the rows, the keys
//! that a store enforces, what is found under a key, and what a write makes of
//! the tables.

use crate::models::{GroupView, Member, NewMember, NewSanta, Role, Santa, UserView};
use vstd::prelude::*;

verus! {

/// Why the store did not do what it was asked.
#[derive(Clone, Copy, Debug, PartialEq, Eq, Structural)]
pub enum StorageError {
    /// No row has the key that was asked for.
    NotFound,
    /// A row with the same key is already there.
    DuplicateKey,
    /// The table has given out its last number.
    Exhausted,
}

/// The row among `rows` that is `wanted`, if there is one. Where several are
/// wanted it is one of them; the keys of a valid store leave at most one.
pub open spec fn lookup<T>(rows: Seq<T>, wanted: spec_fn(T) -> bool) -> Option<T> {
    if exists|i: int| 0 <= i < rows.len() && wanted(#[trigger] rows[i]) {
        Some(rows[choose|i: int| 0 <= i < rows.len() && wanted(#[trigger] rows[i])])
    } else {
        None
    }
}

/// The only wanted row is found.
pub proof fn lemma_lookup_only<T>(rows: Seq<T>, wanted: spec_fn(T) -> bool, k: int)
    requires
        0 <= k < rows.len(),
        wanted(rows[k]),
        forall|i: int| 0 <= i < rows.len() && i != k ==> !wanted(#[trigger] rows[i]),
    ensures
        lookup(rows, wanted) == Some(rows[k]),
{
    let c = choose|i: int| 0 <= i < rows.len() && wanted(#[trigger] rows[i]);
    assert(c == k);
}

/// Where no row is wanted, none is found.
pub proof fn lemma_lookup_none<T>(rows: Seq<T>, wanted: spec_fn(T) -> bool)
    requires
        forall|i: int| 0 <= i < rows.len() ==> !wanted(#[trigger] rows[i]),
    ensures
        lookup(rows, wanted) is None,
{
}

/// Where in the table the rows stand that a filter keeps, in the order of the table.
pub open spec fn kept_positions<T>(rows: Seq<T>, pred: spec_fn(T) -> bool) -> Seq<int>
    decreases rows.len(),
{
    if rows.len() == 0 {
        Seq::empty()
    } else if pred(rows.last()) {
        kept_positions(rows.drop_last(), pred).push(rows.len() - 1)
    } else {
        kept_positions(rows.drop_last(), pred)
    }
}

/// What a filter keeps are the rows at the kept positions: rows of the table
/// that pass the filter, in the order of the table.
pub proof fn lemma_filter_ordered<T>(rows: Seq<T>, pred: spec_fn(T) -> bool)
    ensures
        kept_positions(rows, pred).len() == rows.filter(pred).len(),
        forall|a: int|
            0 <= a < rows.filter(pred).len() ==> {
                &&& 0 <= #[trigger] kept_positions(rows, pred)[a] < rows.len()
                &&& rows[kept_positions(rows, pred)[a]] == rows.filter(pred)[a]
                &&& pred(rows.filter(pred)[a])
            },
        forall|a: int, b: int|
            0 <= a < b < rows.filter(pred).len() ==> #[trigger] kept_positions(rows, pred)[a]
                < #[trigger] kept_positions(rows, pred)[b],
    decreases rows.len(),
{
    reveal(Seq::filter);
    if rows.len() > 0 {
        let init = rows.drop_last();
        lemma_filter_ordered(init, pred);
        let at = kept_positions(rows, pred);
        let before = kept_positions(init, pred);
        let kept = rows.filter(pred);
        let n = init.filter(pred).len() as int;
        assert forall|a: int| 0 <= a < kept.len() implies {
            &&& 0 <= #[trigger] at[a] < rows.len()
            &&& rows[at[a]] == kept[a]
            &&& pred(kept[a])
        } by {
            if a < n {
                assert(at[a] == before[a]);
                assert(init[before[a]] == rows[before[a]]);
                assert(kept[a] == init.filter(pred)[a]);
            }
        }
        assert forall|a: int, b: int| 0 <= a < b < kept.len() implies #[trigger] at[a] < #[trigger] at[b] by {
            assert(at[a] == before[a]);
            if b < n {
                assert(at[b] == before[b]);
            }
        }
    }
}

/// No two users share a number or a name, and no number is beyond `last`.
pub open spec fn users_keyed(rows: Seq<UserView>, last: i32) -> bool {
    &&& forall|i: int| 0 <= i < rows.len() ==> (#[trigger] rows[i]).id <= last
    &&& forall|i: int, j: int|
        0 <= i < rows.len() && 0 <= j < rows.len() && i != j ==> {
            &&& (#[trigger] rows[i]).id != (#[trigger] rows[j]).id
            &&& rows[i].name != rows[j].name
        }
}

/// No two groups share a number or a name, and no number is beyond `last`.
pub open spec fn groups_keyed(rows: Seq<GroupView>, last: i32) -> bool {
    &&& forall|i: int| 0 <= i < rows.len() ==> (#[trigger] rows[i]).id <= last
    &&& forall|i: int, j: int|
        0 <= i < rows.len() && 0 <= j < rows.len() && i != j ==> {
            &&& (#[trigger] rows[i]).id != (#[trigger] rows[j]).id
            &&& rows[i].gname != rows[j].gname
        }
}

/// No two memberships share a number or the pair of user and group, and no
/// number is beyond `last`.
pub open spec fn members_keyed(rows: Seq<Member>, last: i32) -> bool {
    &&& forall|i: int| 0 <= i < rows.len() ==> (#[trigger] rows[i]).id <= last
    &&& forall|i: int, j: int|
        0 <= i < rows.len() && 0 <= j < rows.len() && i != j ==> {
            &&& (#[trigger] rows[i]).id != (#[trigger] rows[j]).id
            &&& !(rows[i].user_id == rows[j].user_id && rows[i].group_id == rows[j].group_id)
        }
}

/// No two pairings share a number or the pair of group and santa, and no number
/// is beyond `last`.
pub open spec fn santas_keyed(rows: Seq<Santa>, last: i32) -> bool {
    &&& forall|i: int| 0 <= i < rows.len() ==> (#[trigger] rows[i]).id <= last
    &&& forall|i: int, j: int|
        0 <= i < rows.len() && 0 <= j < rows.len() && i != j ==> {
            &&& (#[trigger] rows[i]).id != (#[trigger] rows[j]).id
            &&& !(rows[i].group_id == rows[j].group_id && rows[i].santa_id == rows[j].santa_id)
        }
}

/// A filter of the groups keeps their keys.
pub proof fn lemma_filter_groups_keyed(rows: Seq<GroupView>, last: i32, pred: spec_fn(GroupView) -> bool)
    requires
        groups_keyed(rows, last),
    ensures
        groups_keyed(rows.filter(pred), last),
{
    lemma_filter_ordered(rows, pred);
    let kept = rows.filter(pred);
    assert forall|a: int| 0 <= a < kept.len() implies (#[trigger] kept[a]).id <= last by {
        assert(rows[kept_positions(rows, pred)[a]] == kept[a]);
    }
    assert forall|a: int, b: int| 0 <= a < kept.len() && 0 <= b < kept.len() && a != b implies (
    #[trigger] kept[a]).id != (#[trigger] kept[b]).id && kept[a].gname != kept[b].gname by {
        let i = kept_positions(rows, pred)[a];
        let j = kept_positions(rows, pred)[b];
        assert(i != j && rows[i] == kept[a] && rows[j] == kept[b]);
    }
}

/// A filter of the memberships keeps their keys.
pub proof fn lemma_filter_members_keyed(rows: Seq<Member>, last: i32, pred: spec_fn(Member) -> bool)
    requires
        members_keyed(rows, last),
    ensures
        members_keyed(rows.filter(pred), last),
{
    lemma_filter_ordered(rows, pred);
    let kept = rows.filter(pred);
    assert forall|a: int| 0 <= a < kept.len() implies (#[trigger] kept[a]).id <= last by {
        assert(rows[kept_positions(rows, pred)[a]] == kept[a]);
    }
    assert forall|a: int, b: int| 0 <= a < kept.len() && 0 <= b < kept.len() && a != b implies (
    #[trigger] kept[a]).id != (#[trigger] kept[b]).id && !(kept[a].user_id == kept[b].user_id
        && kept[a].group_id == kept[b].group_id) by {
        let i = kept_positions(rows, pred)[a];
        let j = kept_positions(rows, pred)[b];
        assert(i != j && rows[i] == kept[a] && rows[j] == kept[b]);
    }
}

/// A filter of the pairings keeps their keys.
pub proof fn lemma_filter_santas_keyed(rows: Seq<Santa>, last: i32, pred: spec_fn(Santa) -> bool)
    requires
        santas_keyed(rows, last),
    ensures
        santas_keyed(rows.filter(pred), last),
{
    lemma_filter_ordered(rows, pred);
    let kept = rows.filter(pred);
    assert forall|a: int| 0 <= a < kept.len() implies (#[trigger] kept[a]).id <= last by {
        assert(rows[kept_positions(rows, pred)[a]] == kept[a]);
    }
    assert forall|a: int, b: int| 0 <= a < kept.len() && 0 <= b < kept.len() && a != b implies (
    #[trigger] kept[a]).id != (#[trigger] kept[b]).id && !(kept[a].group_id == kept[b].group_id
        && kept[a].santa_id == kept[b].santa_id) by {
        let i = kept_positions(rows, pred)[a];
        let j = kept_positions(rows, pred)[b];
        assert(i != j && rows[i] == kept[a] && rows[j] == kept[b]);
    }
}

/// Once a pairing is refused, the refusal stands however many follow it.
pub proof fn lemma_try_santas_refused(tables: Tables, pairs: Seq<NewSanta>, k: int)
    requires
        0 <= k <= pairs.len(),
        tables.try_santas(pairs.take(k)) is Err,
    ensures
        tables.try_santas(pairs) == tables.try_santas(pairs.take(k)),
    decreases pairs.len() - k,
{
    if k < pairs.len() {
        assert(pairs.take(k + 1).drop_last() =~= pairs.take(k));
        lemma_try_santas_refused(tables, pairs, k + 1);
    } else {
        assert(pairs.take(k) =~= pairs);
    }
}

/// Storing pairings leaves the other three tables as they are.
pub proof fn lemma_try_santas_frame(tables: Tables, pairs: Seq<NewSanta>)
    requires
        tables.try_santas(pairs) is Ok,
    ensures
        tables.try_santas(pairs)->Ok_0.users == tables.users,
        tables.try_santas(pairs)->Ok_0.groups == tables.groups,
        tables.try_santas(pairs)->Ok_0.members == tables.members,
        tables.try_santas(pairs)->Ok_0.last_user == tables.last_user,
        tables.try_santas(pairs)->Ok_0.last_group == tables.last_group,
        tables.try_santas(pairs)->Ok_0.last_member == tables.last_member,
    decreases pairs.len(),
{
    if pairs.len() > 0 {
        lemma_try_santas_frame(tables, pairs.drop_last());
    }
}

/// The highest of the numbers, and zero where all are lower or there is none.
pub open spec fn highest(numbers: Seq<i32>) -> i32
    decreases numbers.len(),
{
    if numbers.len() == 0 {
        0
    } else if numbers.last() > highest(numbers.drop_last()) {
        numbers.last()
    } else {
        highest(numbers.drop_last())
    }
}

/// No number is above the highest.
pub proof fn lemma_highest_bounds(numbers: Seq<i32>)
    ensures
        highest(numbers) >= 0,
        forall|i: int| 0 <= i < numbers.len() ==> #[trigger] numbers[i] <= highest(numbers),
    decreases numbers.len(),
{
    if numbers.len() > 0 {
        lemma_highest_bounds(numbers.drop_last());
        assert forall|i: int| 0 <= i < numbers.len() implies #[trigger] numbers[i] <= highest(
            numbers,
        ) by {
            if i < numbers.len() - 1 {
                assert(numbers.drop_last()[i] == numbers[i]);
            }
        }
    }
}

/// The numbers of the users, in the order of the table.
pub open spec fn user_numbers(rows: Seq<UserView>) -> Seq<i32> {
    Seq::new(rows.len(), |i: int| rows[i].id)
}

/// The numbers of the groups, in the order of the table.
pub open spec fn group_numbers(rows: Seq<GroupView>) -> Seq<i32> {
    Seq::new(rows.len(), |i: int| rows[i].id)
}

/// The numbers of the memberships, in the order of the table.
pub open spec fn member_numbers(rows: Seq<Member>) -> Seq<i32> {
    Seq::new(rows.len(), |i: int| rows[i].id)
}

/// The numbers of the pairings, in the order of the table.
pub open spec fn santa_numbers(rows: Seq<Santa>) -> Seq<i32> {
    Seq::new(rows.len(), |i: int| rows[i].id)
}

/// The contents of the store: its four tables and the last number given out in each.
pub ghost struct Tables {
    pub users: Seq<UserView>,
    pub groups: Seq<GroupView>,
    pub members: Seq<Member>,
    pub santas: Seq<Santa>,
    pub last_user: i32,
    pub last_group: i32,
    pub last_member: i32,
    pub last_santa: i32,
}

impl Tables {
    /// The store with no rows.
    pub open spec fn empty() -> Tables {
        Tables {
            users: Seq::empty(),
            groups: Seq::empty(),
            members: Seq::empty(),
            santas: Seq::empty(),
            last_user: 0,
            last_group: 0,
            last_member: 0,
            last_santa: 0,
        }
    }

    /// The tables that hold those rows, each with the highest number of its rows
    /// as the last one given out.
    pub open spec fn loaded(
        users: Seq<UserView>,
        groups: Seq<GroupView>,
        members: Seq<Member>,
        santas: Seq<Santa>,
    ) -> Tables {
        Tables {
            users,
            groups,
            members,
            santas,
            last_user: highest(user_numbers(users)),
            last_group: highest(group_numbers(groups)),
            last_member: highest(member_numbers(members)),
            last_santa: highest(santa_numbers(santas)),
        }
    }

    /// The rows keep the keys of their tables, whatever their numbers are.
    pub open spec fn keyed(
        users: Seq<UserView>,
        groups: Seq<GroupView>,
        members: Seq<Member>,
        santas: Seq<Santa>,
    ) -> bool {
        &&& users_keyed(users, i32::MAX)
        &&& groups_keyed(groups, i32::MAX)
        &&& members_keyed(members, i32::MAX)
        &&& santas_keyed(santas, i32::MAX)
    }

    /// Every table keeps its keys.
    pub open spec fn valid(self) -> bool {
        &&& users_keyed(self.users, self.last_user)
        &&& groups_keyed(self.groups, self.last_group)
        &&& members_keyed(self.members, self.last_member)
        &&& santas_keyed(self.santas, self.last_santa)
    }

    /// The user of that name.
    pub open spec fn user_named(self, name: Seq<char>) -> Option<UserView> {
        lookup(self.users, |u: UserView| u.name == name)
    }

    /// The user of that number.
    pub open spec fn user_numbered(self, id: i32) -> Option<UserView> {
        lookup(self.users, |u: UserView| u.id == id)
    }

    /// The tables after a user of that name got the next number.
    pub open spec fn with_user(self, name: Seq<char>) -> Tables {
        Tables {
            users: self.users.push(UserView { id: (self.last_user + 1) as i32, name }),
            last_user: (self.last_user + 1) as i32,
            ..self
        }
    }

    /// The group of that name.
    pub open spec fn group_named(self, name: Seq<char>) -> Option<GroupView> {
        lookup(self.groups, |g: GroupView| g.gname == name)
    }

    /// The group of that number.
    pub open spec fn group_numbered(self, id: i32) -> Option<GroupView> {
        lookup(self.groups, |g: GroupView| g.id == id)
    }

    /// The groups that are not closed, in the order of the table.
    pub open spec fn open_groups(self) -> Seq<GroupView> {
        self.groups.filter(|g: GroupView| !g.is_close)
    }

    /// The tables after an open group of that name got the next number.
    pub open spec fn with_group(self, name: Seq<char>) -> Tables {
        Tables {
            groups: self.groups.push(
                GroupView { id: (self.last_group + 1) as i32, gname: name, is_close: false },
            ),
            last_group: (self.last_group + 1) as i32,
            ..self
        }
    }

    /// The tables after the group of that number was marked closed or open.
    pub open spec fn with_group_state(self, id: i32, is_close: bool) -> Tables {
        Tables {
            groups: self.groups.map_values(
                |g: GroupView|
                    if g.id == id {
                        GroupView { is_close, ..g }
                    } else {
                        g
                    },
            ),
            ..self
        }
    }

    /// The tables without the group of that number, its memberships and its pairings.
    pub open spec fn without_group(self, id: i32) -> Tables {
        Tables {
            groups: self.groups.filter(|g: GroupView| g.id != id),
            members: self.members.filter(|m: Member| m.group_id != id),
            santas: self.santas.filter(|s: Santa| s.group_id != id),
            ..self
        }
    }

    /// The membership of that user in that group.
    pub open spec fn membership(self, user_id: i32, group_id: i32) -> Option<Member> {
        lookup(self.members, |m: Member| m.user_id == user_id && m.group_id == group_id)
    }

    /// The membership of that number.
    pub open spec fn member_numbered(self, id: i32) -> Option<Member> {
        lookup(self.members, |m: Member| m.id == id)
    }

    /// The memberships of that group, in the order of the table.
    pub open spec fn members_of(self, group_id: i32) -> Seq<Member> {
        self.members.filter(|m: Member| m.group_id == group_id)
    }

    /// The memberships of that group that hold the admin role, in the order of the table.
    pub open spec fn admins_of(self, group_id: i32) -> Seq<Member> {
        self.members.filter(|m: Member| m.group_id == group_id && m.urole == Role::Admin)
    }

    /// The tables after that membership got the next number.
    pub open spec fn with_member(self, new_member: NewMember) -> Tables {
        Tables {
            members: self.members.push(
                Member {
                    id: (self.last_member + 1) as i32,
                    user_id: new_member.user_id,
                    group_id: new_member.group_id,
                    urole: new_member.urole,
                },
            ),
            last_member: (self.last_member + 1) as i32,
            ..self
        }
    }

    /// The tables after the membership of that number got that role.
    pub open spec fn with_role(self, id: i32, role: Role) -> Tables {
        Tables {
            members: self.members.map_values(
                |m: Member|
                    if m.id == id {
                        Member { urole: role, ..m }
                    } else {
                        m
                    },
            ),
            ..self
        }
    }

    /// The pairing of that santa in that group.
    pub open spec fn pairing(self, group_id: i32, santa_id: i32) -> Option<Santa> {
        lookup(self.santas, |s: Santa| s.group_id == group_id && s.santa_id == santa_id)
    }

    /// The pairings of that group, in the order of the table.
    pub open spec fn santas_of(self, group_id: i32) -> Seq<Santa> {
        self.santas.filter(|s: Santa| s.group_id == group_id)
    }

    /// The user that the santa gives to in that group: the pairing has to be
    /// there, and the user that it names.
    pub open spec fn recipient(self, group_id: i32, santa_id: i32) -> Option<UserView> {
        match self.pairing(group_id, santa_id) {
            Some(pair) => self.user_numbered(pair.recipient_id),
            None => None,
        }
    }

    /// The tables after that pairing got the next number.
    pub open spec fn with_santa(self, new_santa: NewSanta) -> Tables {
        Tables {
            santas: self.santas.push(
                Santa {
                    id: (self.last_santa + 1) as i32,
                    group_id: new_santa.group_id,
                    santa_id: new_santa.santa_id,
                    recipient_id: new_santa.recipient_id,
                },
            ),
            last_santa: (self.last_santa + 1) as i32,
            ..self
        }
    }

    /// What storing one pairing gives: the new tables, or why it is refused.
    pub open spec fn try_santa(self, new_santa: NewSanta) -> Result<Tables, StorageError> {
        if self.pairing(new_santa.group_id, new_santa.santa_id) is Some {
            Err(StorageError::DuplicateKey)
        } else if self.last_santa == i32::MAX {
            Err(StorageError::Exhausted)
        } else {
            Ok(self.with_santa(new_santa))
        }
    }

    /// What storing the pairings one after the other gives: the tables after
    /// the last one, or the first refusal.
    pub open spec fn try_santas(self, pairs: Seq<NewSanta>) -> Result<Tables, StorageError>
        decreases pairs.len(),
    {
        if pairs.len() == 0 {
            Ok(self)
        } else {
            match self.try_santas(pairs.drop_last()) {
                Ok(tables) => tables.try_santa(pairs.last()),
                Err(e) => Err(e),
            }
        }
    }

    /// What storing a new group together with its first admin gives: the new
    /// tables, or why the store refuses the group or the membership.
    pub open spec fn try_group_with_admin(self, name: Seq<char>, user_id: i32) -> Result<
        Tables,
        StorageError,
    > {
        if self.group_named(name) is Some {
            Err(StorageError::DuplicateKey)
        } else if self.last_group == i32::MAX {
            Err(StorageError::Exhausted)
        } else if self.membership(user_id, (self.last_group + 1) as i32) is Some {
            Err(StorageError::DuplicateKey)
        } else if self.last_member == i32::MAX {
            Err(StorageError::Exhausted)
        } else {
            Ok(
                self.with_group(name).with_member(
                    NewMember {
                        user_id,
                        group_id: (self.last_group + 1) as i32,
                        urole: Role::Admin,
                    },
                ),
            )
        }
    }
}

} // verus!
