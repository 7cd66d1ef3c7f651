//! What holds of the service whatever the requests are.

use crate::errors::{failure, ErrorKind, Failure};
use crate::models::{GroupView, Member, NewSanta, Role, Santa, UserView};
use crate::assignment::{
    is_rearranged, is_single_cycle, lemma_links_single_cycle, links, pairings, ring_before, user_ids,
};
use crate::service::{
    apply, close_group, closing, create_group, demote_self, get_recipient, join_group, register_user,
    resolve, taken, Request,
};
use crate::tables::{
    groups_keyed, kept_positions, lemma_filter_groups_keyed, lemma_filter_members_keyed, lemma_filter_ordered,
    lemma_filter_santas_keyed, lemma_lookup_none, lemma_lookup_only, lemma_try_santas_frame, lookup, members_keyed,
    santas_keyed, users_keyed, Tables,
};
use vstd::prelude::*;

verus! {

/// A name that has been registered cannot be registered again: the second
/// request fails with a conflict.
pub proof fn law_register_twice(before: Tables, name: Seq<char>)
    requires
        register_user(before, name) is Ok,
    ensures
        register_user(register_user(before, name)->Ok_0, name) == Err::<Tables, Failure>(taken("User")),
        taken("User").kind == ErrorKind::Conflict,
{
    let after = before.with_user(name);
    let wanted = |u: UserView| u.name == name;
    assert(wanted(after.users[before.users.len() as int]));
}

/// Nobody joins a closed group: the request fails whoever makes it, and for
/// every registered user it fails because of the state of the group.
pub proof fn law_closed_group_takes_nobody(before: Tables, actor: Seq<char>, group: Seq<char>)
    requires
        before.group_named(group) matches Some(found) && found.is_close,
    ensures
        join_group(before, actor, group) is Err,
        before.user_named(actor) is Some ==> join_group(before, actor, group) == Err::<Tables, Failure>(
            failure(ErrorKind::InvalidState, "Group close"),
        ),
{
}

/// A group with fewer than two members cannot be closed: the request fails
/// whatever order is offered, and where an admin asks for an open group it
/// fails because the group is too small.
pub proof fn law_small_group_stays_open(
    before: Tables,
    actor: Seq<char>,
    group: Seq<char>,
    order: Seq<Member>,
)
    requires
        before.group_named(group) matches Some(found) && before.members_of(found.id).len() < 2,
    ensures
        close_group(before, actor, group, order) is Err,
        (resolve(before, actor, group) matches Ok((user, found, member)) && member.urole == Role::Admin
            && !found.is_close) ==> close_group(before, actor, group, order) == Err::<Tables, Failure>(
            failure(ErrorKind::PreconditionFailed, "Not enough count members"),
        ),
{
}

/// The only admin of a group cannot give up the role.
pub proof fn law_sole_admin_stays(before: Tables, actor: Seq<char>, group: Seq<char>)
    requires
        resolve(before, actor, group) matches Ok((user, found, member)) && member.urole == Role::Admin
            && before.admins_of(found.id).len() <= 1,
    ensures
        demote_self(before, actor, group) == Err::<Tables, Failure>(
            failure(ErrorKind::PreconditionFailed, "Not enough admins"),
        ),
{
}

/// Before a group is closed nobody is told a recipient.
pub proof fn law_no_recipient_before_closing(before: Tables, santa: Seq<char>, group: Seq<char>)
    requires
        before.group_named(group) matches Some(found) && !found.is_close,
    ensures
        get_recipient(before, santa, group) is Err,
        before.user_named(santa) is Some ==> get_recipient(before, santa, group) == Err::<
            Seq<char>,
            Failure,
        >(failure(ErrorKind::InvalidState, "It's too early to recognize Santa")),
{
}

/// The name that is told is the name of the user whom the pairing of the santa
/// in that group names as the recipient.
pub proof fn law_recipient_is_the_stored_one(before: Tables, santa: Seq<char>, group: Seq<char>)
    requires
        get_recipient(before, santa, group) is Ok,
    ensures
        before.user_named(santa) is Some,
        before.group_named(group) matches Some(found) && found.is_close,
        exists|i: int, j: int|
            0 <= i < before.santas.len() && 0 <= j < before.users.len() && (
            #[trigger] before.santas[i]).group_id == before.group_named(group)->Some_0.id
                && before.santas[i].santa_id == before.user_named(santa)->Some_0.id && (
            #[trigger] before.users[j]).id == before.santas[i].recipient_id && before.users[j].name
                == get_recipient(before, santa, group)->Ok_0,
{
    let user = before.user_named(santa)->Some_0;
    let found = before.group_named(group)->Some_0;
    let by_santa = |s: crate::models::Santa| s.group_id == found.id && s.santa_id == user.id;
    let i = choose|i: int| 0 <= i < before.santas.len() && by_santa(#[trigger] before.santas[i]);
    let pair = before.santas[i];
    let by_number = |u: UserView| u.id == pair.recipient_id;
    let j = choose|j: int| 0 <= j < before.users.len() && by_number(#[trigger] before.users[j]);
    assert(before.santas[i].group_id == found.id && before.users[j].id == before.santas[i].recipient_id);
}

/// What a lookup finds is a row of the table, and a wanted one.
pub proof fn lemma_lookup_some<T>(rows: Seq<T>, wanted: spec_fn(T) -> bool)
    requires
        lookup(rows, wanted) is Some,
    ensures
        exists|k: int|
            0 <= k < rows.len() && #[trigger] rows[k] == lookup(rows, wanted)->Some_0 && wanted(
                rows[k],
            ),
{
    let k = choose|k: int| 0 <= k < rows.len() && wanted(#[trigger] rows[k]);
    assert(rows[k] == lookup(rows, wanted)->Some_0);
}

/// Every group of that number in the tables is closed.
pub open spec fn closed_in(tables: Tables, id: i32) -> bool {
    forall|i: int|
        0 <= i < tables.groups.len() && (#[trigger] tables.groups[i]).id == id
            ==> tables.groups[i].is_close
}

/// A new group is open.
pub proof fn law_group_starts_open(before: Tables, actor: Seq<char>, group: Seq<char>)
    requires
        create_group(before, actor, group) is Ok,
    ensures
        create_group(before, actor, group)->Ok_0.group_named(group) matches Some(found)
            && !found.is_close,
{
    let after = create_group(before, actor, group)->Ok_0;
    let k = before.groups.len() as int;
    let wanted = |g: GroupView| g.gname == group;
    assert(after.groups[k].gname == group);
    assert forall|i: int| 0 <= i < after.groups.len() && i != k implies !wanted(
        #[trigger] after.groups[i],
    ) by {
        assert(after.groups[i] == before.groups[i]);
        assert(!wanted(before.groups[i]));
    }
    lemma_lookup_only(after.groups, wanted, k);
}

/// A closed group stays closed: no request that succeeds opens it again.
pub proof fn law_closed_stays_closed(before: Tables, request: Request, id: i32)
    requires
        before.valid(),
        apply(before, request) is Ok,
        before.group_numbered(id) matches Some(found) && found.is_close,
    ensures
        apply(before, request)->Ok_0.group_numbered(id) matches Some(found) ==> found.is_close,
{
    let after = apply(before, request)->Ok_0;
    let by_number = |g: GroupView| g.id == id;
    lemma_lookup_some(before.groups, by_number);
    let k = choose|k: int|
        0 <= k < before.groups.len() && #[trigger] before.groups[k] == before.group_numbered(id)->Some_0
            && by_number(before.groups[k]);
    assert(closed_in(before, id)) by {
        assert forall|i: int|
            0 <= i < before.groups.len() && (#[trigger] before.groups[i]).id == id implies before.groups[i].is_close by {
            if i != k {
                assert(before.groups[i].id != before.groups[k].id);
            }
        }
    }
    assert(closed_in(after, id)) by {
        match request {
            Request::Register { name } => {},
            Request::CreateGroup { actor, group } => {
                assert forall|i: int|
                    0 <= i < after.groups.len() && (#[trigger] after.groups[i]).id == id implies after.groups[i].is_close by {
                    if i < before.groups.len() {
                        assert(after.groups[i] == before.groups[i]);
                    } else {
                        assert(before.groups[k].id <= before.last_group);
                    }
                }
            },
            Request::Join { actor, group } => {},
            Request::Delete { actor, group } => {
                let gone = resolve(before, actor, group)->Ok_0.1.id;
                let others = |g: GroupView| g.id != gone;
                lemma_filter_ordered(before.groups, others);
                assert(after.groups == before.groups.filter(others));
                assert forall|i: int|
                    0 <= i < after.groups.len() && (#[trigger] after.groups[i]).id == id implies after.groups[i].is_close by {
                    assert(before.groups[kept_positions(before.groups, others)[i]] == after.groups[i]);
                }
            },
            Request::Promote { actor, target, group } => {},
            Request::DemoteSelf { actor, group } => {},
            Request::Close { actor, group, order } => {
                let found = closing(before, actor, group)->Ok_0;
                lemma_try_santas_frame(before, pairings(found.id, order));
            },
        }
    }
    if after.group_numbered(id) is Some {
        lemma_lookup_some(after.groups, by_number);
    }
}

/// Where one row of a table changes from passing a filter to failing it, the
/// filter keeps one row less.
pub proof fn lemma_filter_loses_one<T>(
    rows: Seq<T>,
    changed: Seq<T>,
    pred: spec_fn(T) -> bool,
    k: int,
    n: int,
)
    requires
        rows.len() == changed.len(),
        0 <= k < rows.len(),
        0 <= n <= rows.len(),
        forall|i: int| 0 <= i < rows.len() && i != k ==> #[trigger] changed[i] == rows[i],
        pred(rows[k]),
        !pred(changed[k]),
    ensures
        changed.take(n).filter(pred).len() + (if n > k {
            1int
        } else {
            0int
        }) == rows.take(n).filter(pred).len(),
    decreases n,
{
    reveal(Seq::filter);
    if n > 0 {
        lemma_filter_loses_one(rows, changed, pred, k, n - 1);
        rows.lemma_take_succ_push(n - 1);
        changed.lemma_take_succ_push(n - 1);
        rows.take(n - 1).lemma_filter_push(rows[n - 1], pred);
        changed.take(n - 1).lemma_filter_push(changed[n - 1], pred);
    }
}

/// An admin of a group with another admin may give up the role, and leaves the
/// group with one admin less: of two admins one remains.
pub proof fn law_demotion_takes_one_admin(before: Tables, actor: Seq<char>, group: Seq<char>)
    requires
        before.valid(),
        resolve(before, actor, group) matches Ok((user, found, member)) && member.urole == Role::Admin
            && before.admins_of(found.id).len() >= 2,
    ensures
        demote_self(before, actor, group) is Ok,
        demote_self(before, actor, group)->Ok_0.admins_of(resolve(before, actor, group)->Ok_0.1.id).len()
            == before.admins_of(resolve(before, actor, group)->Ok_0.1.id).len() - 1,
{
    let (user, found, member) = resolve(before, actor, group)->Ok_0;
    let after = demote_self(before, actor, group)->Ok_0;
    let rows = before.members;
    let changed = after.members;
    let admin = |m: Member| m.group_id == found.id && m.urole == Role::Admin;
    let by_key = |m: Member| m.user_id == user.id && m.group_id == found.id;
    lemma_lookup_some(rows, by_key);
    let k = choose|k: int|
        0 <= k < rows.len() && #[trigger] rows[k] == lookup(rows, by_key)->Some_0 && by_key(rows[k]);
    assert forall|i: int| 0 <= i < rows.len() && i != k implies #[trigger] changed[i] == rows[i] by {
        assert(rows[i].id != rows[k].id);
    }
    assert(admin(rows[k]));
    assert(!admin(changed[k]));
    lemma_filter_loses_one(rows, changed, admin, k, rows.len() as int);
    rows.lemma_take_len();
    changed.lemma_take_len();
}

/// The pairs of santa and recipient that the rows hold, in their order.
pub open spec fn pairs_of(rows: Seq<Santa>) -> Seq<(i32, i32)> {
    Seq::new(rows.len(), |k: int| (rows[k].santa_id, rows[k].recipient_id))
}

/// The rows that the pairings become when they are stored after the number `last`.
pub open spec fn stored(pairs: Seq<NewSanta>, last: i32) -> Seq<Santa> {
    Seq::new(
        pairs.len(),
        |k: int|
            Santa {
                id: (last + 1 + k) as i32,
                group_id: pairs[k].group_id,
                santa_id: pairs[k].santa_id,
                recipient_id: pairs[k].recipient_id,
            },
    )
}

/// Pairings that the store accepts are added at the end of the table, in their
/// order and numbered on from the last number.
pub proof fn lemma_stored_at_the_end(tables: Tables, pairs: Seq<NewSanta>)
    requires
        tables.try_santas(pairs) is Ok,
    ensures
        tables.last_santa + pairs.len() <= i32::MAX,
        tables.try_santas(pairs)->Ok_0.santas == tables.santas + stored(pairs, tables.last_santa),
        tables.try_santas(pairs)->Ok_0.last_santa == tables.last_santa + pairs.len(),
    decreases pairs.len(),
{
    if pairs.len() > 0 {
        let init = pairs.drop_last();
        lemma_stored_at_the_end(tables, init);
        let mid = tables.try_santas(init)->Ok_0;
        let after = tables.try_santas(pairs)->Ok_0;
        assert(after == mid.with_santa(pairs.last()));
        assert(after.santas =~= tables.santas + stored(pairs, tables.last_santa));
    } else {
        assert(tables.santas =~= tables.santas + stored(pairs, tables.last_santa));
    }
}

/// A filter that every row passes keeps the table as it is.
pub proof fn lemma_filter_keeps_all<T>(rows: Seq<T>, pred: spec_fn(T) -> bool)
    requires
        forall|i: int| 0 <= i < rows.len() ==> pred(#[trigger] rows[i]),
    ensures
        rows.filter(pred) == rows,
    decreases rows.len(),
{
    reveal(Seq::filter);
    if rows.len() > 0 {
        lemma_filter_keeps_all(rows.drop_last(), pred);
        assert(rows.drop_last().push(rows.last()) =~= rows);
    }
}

/// The members of one group are different users.
pub proof fn lemma_members_are_different_users(tables: Tables, group_id: i32)
    requires
        tables.valid(),
    ensures
        user_ids(tables.members_of(group_id)).no_duplicates(),
{
    let rows = tables.members;
    let of_group = |m: Member| m.group_id == group_id;
    let kept = rows.filter(of_group);
    lemma_filter_ordered(rows, of_group);
    assert forall|a: int, b: int| 0 <= a < b < kept.len() implies kept[a].user_id != kept[b].user_id by {
        let i = kept_positions(rows, of_group)[a];
        let j = kept_positions(rows, of_group)[b];
        assert(i < j && rows[i] == kept[a] && rows[j] == kept[b]);
        assert(of_group(kept[a]) && of_group(kept[b]));
        assert(!(rows[i].user_id == rows[j].user_id && rows[i].group_id == rows[j].group_id));
    }
    assert forall|a: int, b: int|
        0 <= a < kept.len() && 0 <= b < kept.len() && a != b implies user_ids(kept)[a] != user_ids(
        kept,
    )[b] by {
        if a < b {
            assert(kept[a].user_id != kept[b].user_id);
        } else {
            assert(kept[b].user_id != kept[a].user_id);
        }
    }
}

/// Memberships of different users stay memberships of different users, and of
/// the same users, when they are put into another order.
pub proof fn lemma_rearranged_users(order: Seq<Member>, members: Seq<Member>)
    requires
        is_rearranged(order, members),
        user_ids(members).no_duplicates(),
    ensures
        order.len() == members.len(),
        user_ids(order).no_duplicates(),
        user_ids(order).to_set() == user_ids(members).to_set(),
{
    broadcast use vstd::seq_lib::to_multiset_contains;

    vstd::seq_lib::to_multiset_len(order);
    vstd::seq_lib::to_multiset_len(members);
    assert(members.no_duplicates()) by {
        assert forall|i: int, j: int|
            0 <= i < members.len() && 0 <= j < members.len() && i != j implies members[i]
            != members[j] by {
            assert(user_ids(members)[i] != user_ids(members)[j]);
        }
    }
    members.lemma_multiset_has_no_duplicates();
    order.lemma_multiset_has_no_duplicates_conv();
    assert forall|a: int| 0 <= a < order.len() implies members.contains(#[trigger] order[a]) by {
        assert(order.contains(order[a]));
        assert(order.to_multiset().count(order[a]) > 0);
    }
    assert forall|a: int| 0 <= a < members.len() implies order.contains(#[trigger] members[a]) by {
        assert(members.contains(members[a]));
        assert(members.to_multiset().count(members[a]) > 0);
    }
    assert forall|a: int, b: int|
        0 <= a < order.len() && 0 <= b < order.len() && a != b implies user_ids(order)[a] != user_ids(
        order,
    )[b] by {
        let i = choose|i: int| 0 <= i < members.len() && members[i] == order[a];
        let j = choose|j: int| 0 <= j < members.len() && members[j] == order[b];
        assert(members.contains(order[a]) && members.contains(order[b]));
        assert(order[a] != order[b]);
        assert(i != j);
        assert(user_ids(members)[i] != user_ids(members)[j]);
    }
    assert(user_ids(order).to_set() =~= user_ids(members).to_set()) by {
        assert forall|u: i32| user_ids(order).to_set().contains(u) <==> user_ids(members).to_set().contains(
            u,
        ) by {
            if user_ids(order).to_set().contains(u) {
                let a = choose|a: int| 0 <= a < order.len() && user_ids(order)[a] == u;
                assert(members.contains(order[a]));
                let i = choose|i: int| 0 <= i < members.len() && members[i] == order[a];
                assert(user_ids(members)[i] == u);
            }
            if user_ids(members).to_set().contains(u) {
                let i = choose|i: int| 0 <= i < members.len() && user_ids(members)[i] == u;
                assert(order.contains(members[i]));
                let a = choose|a: int| 0 <= a < order.len() && order[a] == members[i];
                assert(user_ids(order)[a] == u);
            }
        }
    }
}

/// After pairings of one group are stored in tables that held none of that
/// group, the pairings of the group are the stored ones.
pub proof fn lemma_pairings_of_group(tables: Tables, group_id: i32, order: Seq<Member>)
    requires
        tables.santas_of(group_id).len() == 0,
        tables.try_santas(pairings(group_id, order)) is Ok,
    ensures
        pairs_of(tables.try_santas(pairings(group_id, order))->Ok_0.santas_of(group_id)) == links(
            user_ids(order),
        ),
{
    let pairs = pairings(group_id, order);
    let after = tables.try_santas(pairs)->Ok_0;
    let of_group = |s: Santa| s.group_id == group_id;
    lemma_stored_at_the_end(tables, pairs);
    let added = stored(pairs, tables.last_santa);
    vstd::seq::Seq::filter_distributes_over_add(tables.santas, added, of_group);
    lemma_filter_keeps_all(added, of_group);
    assert(tables.santas.filter(of_group) =~= Seq::<Santa>::empty());
    assert(after.santas_of(group_id) =~= added);
    assert(pairs_of(added) =~= links(user_ids(order)));
}

/// Marking a group closed leaves it under its name, closed.
pub proof fn lemma_closed_under_its_name(tables: Tables, name: Seq<char>)
    requires
        tables.valid(),
        tables.group_named(name) is Some,
    ensures
        tables.with_group_state(tables.group_named(name)->Some_0.id, true).group_named(name) == Some(
            GroupView { is_close: true, ..tables.group_named(name)->Some_0 },
        ),
{
    let id = tables.group_named(name)->Some_0.id;
    let after = tables.with_group_state(id, true);
    let by_name = |g: GroupView| g.gname == name;
    lemma_lookup_some(tables.groups, by_name);
    let k = choose|k: int|
        0 <= k < tables.groups.len() && #[trigger] tables.groups[k] == lookup(tables.groups, by_name)->Some_0
            && by_name(tables.groups[k]);
    assert forall|i: int| 0 <= i < after.groups.len() && i != k implies !by_name(
        #[trigger] after.groups[i],
    ) by {
        assert(tables.groups[i].gname != tables.groups[k].gname);
    }
    assert(by_name(after.groups[k]));
    lemma_lookup_only(after.groups, by_name, k);
}

/// Closing a group that has no pairings yet leaves it with exactly the pairings
/// of the order: every member is santa once and recipient once, nobody gives to
/// themselves, and going from santa to recipient leads from any member through
/// all the others and back. The members are the same as before, and the group
/// is closed.
pub proof fn law_closing_makes_one_cycle(
    before: Tables,
    actor: Seq<char>,
    group: Seq<char>,
    order: Seq<Member>,
)
    requires
        before.valid(),
        closing(before, actor, group) is Ok,
        is_rearranged(order, before.members_of(closing(before, actor, group)->Ok_0.id)),
        before.santas_of(closing(before, actor, group)->Ok_0.id).len() == 0,
        close_group(before, actor, group, order) is Ok,
    ensures
        ({
            let id = closing(before, actor, group)->Ok_0.id;
            let after = close_group(before, actor, group, order)->Ok_0;
            &&& pairs_of(after.santas_of(id)) == links(user_ids(order))
            &&& is_single_cycle(links(user_ids(order)), user_ids(before.members_of(id)).to_set())
            &&& after.members_of(id) == before.members_of(id)
            &&& after.group_named(group) matches Some(found) && found.is_close && found.id == id
        }),
{
    let found = closing(before, actor, group)->Ok_0;
    let id = found.id;
    let after = close_group(before, actor, group, order)->Ok_0;
    let pairs = pairings(id, order);
    let mid = before.try_santas(pairs)->Ok_0;
    assert(before.group_named(group) == Some(found));
    assert(after == mid.with_group_state(id, true));
    lemma_try_santas_frame(before, pairs);
    lemma_pairings_of_group(before, id, order);
    assert(before.members_of(id).len() >= 2);
    assert(is_single_cycle(links(user_ids(order)), user_ids(before.members_of(id)).to_set())) by {
        lemma_members_are_different_users(before, id);
        lemma_rearranged_users(order, before.members_of(id));
        lemma_links_single_cycle(user_ids(order));
    }
    assert(after.group_named(group) == Some(GroupView { is_close: true, ..found })) by {
        lemma_closed_under_its_name(before, group);
        assert(after.groups == before.with_group_state(id, true).groups);
    }
}

/// One of the groups has that number and is closed.
pub open spec fn holds_closed(groups: Seq<GroupView>, id: i32) -> bool {
    exists|j: int| 0 <= j < groups.len() && (#[trigger] groups[j]).id == id && groups[j].is_close
}

/// Every one of the pairings belongs to one of the groups, and to a closed one.
pub open spec fn groups_hold_closed(groups: Seq<GroupView>, santas: Seq<Santa>) -> bool {
    forall|i: int| 0 <= i < santas.len() ==> holds_closed(groups, (#[trigger] santas[i]).group_id)
}

/// Every pairing belongs to a group that exists and is closed.
pub open spec fn pairings_are_of_closed_groups(tables: Tables) -> bool {
    groups_hold_closed(tables.groups, tables.santas)
}

/// No request that succeeds leaves a pairing behind whose group is open or gone.
/// The empty tables hold no pairing, so in every state that requests lead to
/// the pairings are those of closed groups.
pub proof fn law_pairings_are_of_closed_groups(before: Tables, request: Request)
    requires
        before.valid(),
        pairings_are_of_closed_groups(before),
        apply(before, request) is Ok,
    ensures
        pairings_are_of_closed_groups(apply(before, request)->Ok_0),
        pairings_are_of_closed_groups(Tables::empty()),
{
    let after = apply(before, request)->Ok_0;
    match request {
        Request::Register { name } => {},
        Request::CreateGroup { actor, group } => {
            assert forall|i: int| 0 <= i < after.santas.len() implies holds_closed(
                after.groups,
                (#[trigger] after.santas[i]).group_id,
            ) by {
                assert(holds_closed(before.groups, before.santas[i].group_id));
                let j = choose|j: int|
                    0 <= j < before.groups.len() && (#[trigger] before.groups[j]).id
                        == before.santas[i].group_id && before.groups[j].is_close;
                assert(after.groups[j] == before.groups[j]);
            }
        },
        Request::Join { actor, group } => {},
        Request::Delete { actor, group } => {
            let gone = resolve(before, actor, group)->Ok_0.1.id;
            let other_group = |g: GroupView| g.id != gone;
            let of_other = |s: Santa| s.group_id != gone;
            lemma_filter_ordered(before.santas, of_other);
            assert(after.santas == before.santas.filter(of_other));
            assert(after.groups == before.groups.filter(other_group));
            assert forall|i: int| 0 <= i < after.santas.len() implies holds_closed(
                after.groups,
                (#[trigger] after.santas[i]).group_id,
            ) by {
                let i0 = kept_positions(before.santas, of_other)[i];
                assert(before.santas[i0] == after.santas[i] && of_other(after.santas[i]));
                assert(holds_closed(before.groups, before.santas[i0].group_id));
                let j0 = choose|j0: int|
                    0 <= j0 < before.groups.len() && (#[trigger] before.groups[j0]).id
                        == before.santas[i0].group_id && before.groups[j0].is_close;
                before.groups.lemma_filter_contains(other_group, j0);
                let j = choose|j: int|
                    0 <= j < after.groups.len() && after.groups[j] == before.groups[j0];
                assert(after.groups[j].id == after.santas[i].group_id && after.groups[j].is_close);
            }
        },
        Request::Promote { actor, target, group } => {},
        Request::DemoteSelf { actor, group } => {},
        Request::Close { actor, group, order } => {
            let id = closing(before, actor, group)->Ok_0.id;
            let pairs = pairings(id, order);
            lemma_try_santas_frame(before, pairs);
            lemma_stored_at_the_end(before, pairs);
            let by_number = |g: GroupView| g.id == id;
            lemma_lookup_some(before.groups, by_number);
            let k = choose|k: int|
                0 <= k < before.groups.len() && #[trigger] before.groups[k] == lookup(
                    before.groups,
                    by_number,
                )->Some_0 && by_number(before.groups[k]);
            assert forall|i: int| 0 <= i < after.santas.len() implies holds_closed(
                after.groups,
                (#[trigger] after.santas[i]).group_id,
            ) by {
                if i < before.santas.len() {
                    assert(holds_closed(before.groups, before.santas[i].group_id));
                    let j = choose|j: int|
                        0 <= j < before.groups.len() && (#[trigger] before.groups[j]).id
                            == before.santas[i].group_id && before.groups[j].is_close;
                    assert(after.groups[j].id == after.santas[i].group_id && after.groups[j].is_close);
                } else {
                    assert(after.santas[i].group_id == id);
                    assert(after.groups[k].id == id && after.groups[k].is_close);
                }
            }
        },
    }
}

/// Where the pairings are those of closed groups, an open group has none.
pub proof fn law_open_group_has_no_pairings(tables: Tables, id: i32)
    requires
        tables.valid(),
        pairings_are_of_closed_groups(tables),
        tables.group_numbered(id) matches Some(found) && !found.is_close,
    ensures
        tables.santas_of(id).len() == 0,
{
    let by_number = |g: GroupView| g.id == id;
    let of_group = |s: Santa| s.group_id == id;
    lemma_lookup_some(tables.groups, by_number);
    let k = choose|k: int|
        0 <= k < tables.groups.len() && #[trigger] tables.groups[k] == lookup(tables.groups, by_number)->Some_0
            && by_number(tables.groups[k]);
    lemma_filter_ordered(tables.santas, of_group);
    if tables.santas_of(id).len() > 0 {
        let i = kept_positions(tables.santas, of_group)[0];
        assert(tables.santas[i] == tables.santas.filter(of_group)[0] && of_group(tables.santas[i]));
        assert(holds_closed(tables.groups, tables.santas[i].group_id));
        let j = choose|j: int|
            0 <= j < tables.groups.len() && (#[trigger] tables.groups[j]).id == tables.santas[i].group_id
                && tables.groups[j].is_close;
        if j != k {
            assert(tables.groups[j].id != tables.groups[k].id);
        }
        assert(false);
    }
}

/// Pairings that the store accepts leave it with its keys.
pub proof fn lemma_try_santas_valid(tables: Tables, pairs: Seq<NewSanta>)
    requires
        tables.valid(),
        tables.try_santas(pairs) is Ok,
    ensures
        tables.try_santas(pairs)->Ok_0.valid(),
    decreases pairs.len(),
{
    if pairs.len() > 0 {
        lemma_try_santas_valid(tables, pairs.drop_last());
        let mid = tables.try_santas(pairs.drop_last())->Ok_0;
        let after = mid.with_santa(pairs.last());
        let new_santa = pairs.last();
        assert forall|j: int| 0 <= j < mid.santas.len() implies !((#[trigger] mid.santas[j]).group_id
            == new_santa.group_id && mid.santas[j].santa_id == new_santa.santa_id) by {
            let wanted = |s: Santa| s.group_id == new_santa.group_id && s.santa_id == new_santa.santa_id;
            assert(!wanted(mid.santas[j]));
        }
        assert forall|j: int| 0 <= j < mid.santas.len() implies after.santas[j] == mid.santas[j] by {}
        assert(santas_keyed(after.santas, after.last_santa));
    }
}

/// No request that succeeds breaks a key: users and groups keep their names
/// to themselves, a user is a member of a group once, and a santa has one
/// pairing in a group.
pub proof fn law_requests_keep_the_keys(before: Tables, request: Request)
    requires
        before.valid(),
        apply(before, request) is Ok,
    ensures
        apply(before, request)->Ok_0.valid(),
        Tables::empty().valid(),
{
    let after = apply(before, request)->Ok_0;
    match request {
        Request::Register { name } => {
            assert forall|j: int| 0 <= j < before.users.len() implies (#[trigger] before.users[j]).name
                != name by {
                let wanted = |u: UserView| u.name == name;
                assert(!wanted(before.users[j]));
            }
            assert forall|j: int| 0 <= j < before.users.len() implies after.users[j]
                == before.users[j] by {}
            assert(users_keyed(after.users, after.last_user));
        },
        Request::CreateGroup { actor, group } => {
            let user = before.user_named(actor)->Some_0;
            let id = (before.last_group + 1) as i32;
            assert forall|j: int| 0 <= j < before.groups.len() implies (
            #[trigger] before.groups[j]).gname != group by {
                let wanted = |g: GroupView| g.gname == group;
                assert(!wanted(before.groups[j]));
            }
            assert forall|j: int| 0 <= j < before.groups.len() implies after.groups[j]
                == before.groups[j] by {}
            assert(groups_keyed(after.groups, after.last_group));
            assert forall|j: int| 0 <= j < before.members.len() implies !((
            #[trigger] before.members[j]).user_id == user.id && before.members[j].group_id == id) by {
                let wanted = |m: Member| m.user_id == user.id && m.group_id == id;
                assert(!wanted(before.members[j]));
            }
            assert forall|j: int| 0 <= j < before.members.len() implies after.members[j]
                == before.members[j] by {}
            assert(members_keyed(after.members, after.last_member));
        },
        Request::Join { actor, group } => {
            let user = before.user_named(actor)->Some_0;
            let found = before.group_named(group)->Some_0;
            assert forall|j: int| 0 <= j < before.members.len() implies !((
            #[trigger] before.members[j]).user_id == user.id && before.members[j].group_id
                == found.id) by {
                let wanted = |m: Member| m.user_id == user.id && m.group_id == found.id;
                assert(!wanted(before.members[j]));
            }
            assert forall|j: int| 0 <= j < before.members.len() implies after.members[j]
                == before.members[j] by {}
            assert(members_keyed(after.members, after.last_member));
        },
        Request::Delete { actor, group } => {
            let gone = resolve(before, actor, group)->Ok_0.1.id;
            lemma_filter_groups_keyed(before.groups, before.last_group, |g: GroupView| g.id != gone);
            lemma_filter_members_keyed(
                before.members,
                before.last_member,
                |m: Member| m.group_id != gone,
            );
            lemma_filter_santas_keyed(before.santas, before.last_santa, |s: Santa| s.group_id != gone);
        },
        Request::Promote { actor, target, group } => {
            assert(members_keyed(after.members, after.last_member));
        },
        Request::DemoteSelf { actor, group } => {
            assert(members_keyed(after.members, after.last_member));
        },
        Request::Close { actor, group, order } => {
            let id = closing(before, actor, group)->Ok_0.id;
            let pairs = pairings(id, order);
            lemma_try_santas_frame(before, pairs);
            lemma_try_santas_valid(before, pairs);
            assert(groups_keyed(after.groups, after.last_group));
        },
    }
}

/// The pairings of an order of different users are accepted one after the other
/// by tables that hold no pairing of the group and have numbers left.
pub proof fn lemma_pairings_are_accepted(tables: Tables, group_id: i32, order: Seq<Member>, n: int)
    requires
        tables.santas_of(group_id).len() == 0,
        user_ids(order).no_duplicates(),
        tables.last_santa + order.len() <= i32::MAX,
        0 <= n <= order.len(),
    ensures
        tables.try_santas(pairings(group_id, order).take(n)) is Ok,
    decreases n,
{
    let pairs = pairings(group_id, order);
    if n > 0 {
        lemma_pairings_are_accepted(tables, group_id, order, n - 1);
        assert(pairs.take(n).drop_last() =~= pairs.take(n - 1));
        let mid = tables.try_santas(pairs.take(n - 1))->Ok_0;
        lemma_stored_at_the_end(tables, pairs.take(n - 1));
        let added = stored(pairs.take(n - 1), tables.last_santa);
        let new_santa = pairs[n - 1];
        let wanted = |s: Santa| s.group_id == new_santa.group_id && s.santa_id == new_santa.santa_id;
        let of_group = |s: Santa| s.group_id == group_id;
        let len = order.len() as int;
        assert forall|j: int| 0 <= j < mid.santas.len() implies !wanted(#[trigger] mid.santas[j]) by {
            if j < tables.santas.len() {
                if of_group(tables.santas[j]) {
                    tables.santas.lemma_filter_contains(of_group, j);
                }
            } else {
                let k = j - tables.santas.len();
                assert(mid.santas[j] == added[k]);
                assert(added[k].santa_id == user_ids(order)[ring_before(k, len)]);
                assert(new_santa.santa_id == user_ids(order)[ring_before(n - 1, len)]);
                assert(ring_before(k, len) != ring_before(n - 1, len));
            }
        }
        lemma_lookup_none(mid.santas, wanted);
    }
}

/// Closing succeeds where the rules allow it, the group has no pairings yet and
/// the store has numbers left for one pairing for each member.
pub proof fn law_closing_succeeds(
    before: Tables,
    actor: Seq<char>,
    group: Seq<char>,
    order: Seq<Member>,
)
    requires
        before.valid(),
        closing(before, actor, group) is Ok,
        is_rearranged(order, before.members_of(closing(before, actor, group)->Ok_0.id)),
        before.santas_of(closing(before, actor, group)->Ok_0.id).len() == 0,
        before.last_santa + order.len() <= i32::MAX,
    ensures
        close_group(before, actor, group, order) is Ok,
{
    let found = closing(before, actor, group)->Ok_0;
    let pairs = pairings(found.id, order);
    lemma_members_are_different_users(before, found.id);
    lemma_rearranged_users(order, before.members_of(found.id));
    lemma_pairings_are_accepted(before, found.id, order, order.len() as int);
    assert(pairs.take(order.len() as int) =~= pairs);
    let by_name = |g: GroupView| g.gname == group;
    lemma_lookup_some(before.groups, by_name);
    let k = choose|k: int|
        0 <= k < before.groups.len() && #[trigger] before.groups[k] == lookup(before.groups, by_name)->Some_0
            && by_name(before.groups[k]);
    let by_number = |g: GroupView| g.id == found.id;
    assert(by_number(before.groups[k]));
}

/// One of the memberships is that of an admin of the group of that number.
pub open spec fn has_admin(members: Seq<Member>, group_id: i32) -> bool {
    exists|i: int|
        0 <= i < members.len() && (#[trigger] members[i]).group_id == group_id && members[i].urole
            == Role::Admin
}

/// Every one of the groups has an admin among the memberships.
pub open spec fn groups_have_admins(groups: Seq<GroupView>, members: Seq<Member>) -> bool {
    forall|j: int| 0 <= j < groups.len() ==> has_admin(members, (#[trigger] groups[j]).id)
}

/// Every group has an admin.
pub open spec fn every_group_has_an_admin(tables: Tables) -> bool {
    groups_have_admins(tables.groups, tables.members)
}

/// A group that has two admins has an admin that is not a given one.
pub proof fn lemma_another_admin(tables: Tables, group_id: i32, k: int)
    requires
        tables.admins_of(group_id).len() >= 2,
    ensures
        exists|i: int|
            0 <= i < tables.members.len() && i != k && (#[trigger] tables.members[i]).group_id
                == group_id && tables.members[i].urole == Role::Admin,
{
    let rows = tables.members;
    let admin = |m: Member| m.group_id == group_id && m.urole == Role::Admin;
    let kept = rows.filter(admin);
    lemma_filter_ordered(rows, admin);
    let i = kept_positions(rows, admin)[0];
    let j = kept_positions(rows, admin)[1];
    assert(i < j && rows[i] == kept[0] && rows[j] == kept[1]);
    assert(admin(rows[i]) && admin(rows[j]));
    if i != k {
        assert(rows[i].group_id == group_id && rows[i].urole == Role::Admin);
    } else {
        assert(rows[j].group_id == group_id && rows[j].urole == Role::Admin);
    }
}

/// No request that succeeds leaves a group without an admin. The empty tables
/// hold no group, so in every state that requests lead to every group has an
/// admin.
pub proof fn law_every_group_has_an_admin(before: Tables, request: Request)
    requires
        before.valid(),
        every_group_has_an_admin(before),
        apply(before, request) is Ok,
    ensures
        every_group_has_an_admin(apply(before, request)->Ok_0),
        every_group_has_an_admin(Tables::empty()),
{
    let after = apply(before, request)->Ok_0;
    match request {
        Request::Register { name } => {},
        Request::CreateGroup { actor, group } => {
            let n = before.members.len() as int;
            assert forall|j: int| 0 <= j < after.groups.len() implies has_admin(
                after.members,
                (#[trigger] after.groups[j]).id,
            ) by {
                if j < before.groups.len() {
                    assert(has_admin(before.members, before.groups[j].id));
                    let i = choose|i: int|
                        0 <= i < before.members.len() && (#[trigger] before.members[i]).group_id
                            == before.groups[j].id && before.members[i].urole == Role::Admin;
                    assert(after.members[i] == before.members[i]);
                } else {
                    assert(after.members[n].group_id == after.groups[j].id && after.members[n].urole
                        == Role::Admin);
                }
            }
        },
        Request::Join { actor, group } => {
            assert forall|j: int| 0 <= j < after.groups.len() implies has_admin(
                after.members,
                (#[trigger] after.groups[j]).id,
            ) by {
                assert(has_admin(before.members, before.groups[j].id));
                let i = choose|i: int|
                    0 <= i < before.members.len() && (#[trigger] before.members[i]).group_id
                        == before.groups[j].id && before.members[i].urole == Role::Admin;
                assert(after.members[i] == before.members[i]);
            }
        },
        Request::Delete { actor, group } => {
            let gone = resolve(before, actor, group)->Ok_0.1.id;
            let other_group = |g: GroupView| g.id != gone;
            let of_other = |m: Member| m.group_id != gone;
            lemma_filter_ordered(before.groups, other_group);
            assert(after.groups == before.groups.filter(other_group));
            assert(after.members == before.members.filter(of_other));
            assert forall|j: int| 0 <= j < after.groups.len() implies has_admin(
                after.members,
                (#[trigger] after.groups[j]).id,
            ) by {
                let j0 = kept_positions(before.groups, other_group)[j];
                assert(before.groups[j0] == after.groups[j] && other_group(after.groups[j]));
                assert(has_admin(before.members, before.groups[j0].id));
                let i0 = choose|i0: int|
                    0 <= i0 < before.members.len() && (#[trigger] before.members[i0]).group_id
                        == before.groups[j0].id && before.members[i0].urole == Role::Admin;
                before.members.lemma_filter_contains(of_other, i0);
                let i = choose|i: int|
                    0 <= i < after.members.len() && after.members[i] == before.members[i0];
                assert(after.members[i].group_id == after.groups[j].id && after.members[i].urole
                    == Role::Admin);
            }
        },
        Request::Promote { actor, target, group } => {
            assert forall|j: int| 0 <= j < after.groups.len() implies has_admin(
                after.members,
                (#[trigger] after.groups[j]).id,
            ) by {
                assert(has_admin(before.members, before.groups[j].id));
                let i = choose|i: int|
                    0 <= i < before.members.len() && (#[trigger] before.members[i]).group_id
                        == before.groups[j].id && before.members[i].urole == Role::Admin;
                assert(after.members[i].group_id == before.members[i].group_id
                    && after.members[i].urole == Role::Admin);
            }
        },
        Request::DemoteSelf { actor, group } => {
            let (user, found, member) = resolve(before, actor, group)->Ok_0;
            let rows = before.members;
            let by_key = |m: Member| m.user_id == user.id && m.group_id == found.id;
            lemma_lookup_some(rows, by_key);
            let k = choose|k: int|
                0 <= k < rows.len() && #[trigger] rows[k] == lookup(rows, by_key)->Some_0 && by_key(
                    rows[k],
                );
            assert forall|i: int| 0 <= i < rows.len() && i != k implies #[trigger] after.members[i]
                == rows[i] by {
                assert(rows[i].id != rows[k].id);
            }
            assert forall|j: int| 0 <= j < after.groups.len() implies has_admin(
                after.members,
                (#[trigger] after.groups[j]).id,
            ) by {
                let id = before.groups[j].id;
                if id == found.id {
                    lemma_another_admin(before, id, k);
                    let i = choose|i: int|
                        0 <= i < rows.len() && i != k && (#[trigger] rows[i]).group_id == id
                            && rows[i].urole == Role::Admin;
                    assert(after.members[i] == rows[i]);
                } else {
                    assert(has_admin(rows, id));
                    let i = choose|i: int|
                        0 <= i < rows.len() && (#[trigger] rows[i]).group_id == id && rows[i].urole
                            == Role::Admin;
                    assert(after.members[i] == rows[i]);
                }
            }
        },
        Request::Close { actor, group, order } => {
            let id = closing(before, actor, group)->Ok_0.id;
            lemma_try_santas_frame(before, pairings(id, order));
            assert forall|j: int| 0 <= j < after.groups.len() implies has_admin(
                after.members,
                (#[trigger] after.groups[j]).id,
            ) by {
                assert(has_admin(before.members, before.groups[j].id));
            }
        },
    }
}

} // verus!
