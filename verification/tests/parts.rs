use secret_santa::assignment::link_cycle;
use secret_santa::errors::{
    error_bad_request, error_internal_server, error_method_not_allowed, error_precondition_failed,
    error_same_name, error_too_early, ErrorKind,
};
use secret_santa::json_models::{NewAdminUserGroupName, UserGroupName, Username};
use secret_santa::models::{ConversionError, Group, Member, NewSanta, Role, Santa, User};
use secret_santa::rules::{
    check_close, check_demote, check_join, check_manage, check_quorum, check_reveal,
};
use secret_santa::storage::Store;
use secret_santa::tables::StorageError;

fn member(id: i32, user_id: i32, group_id: i32, urole: Role) -> Member {
    Member { id, user_id, group_id, urole }
}

fn user(id: i32, name: &str) -> User {
    User { id, name: name.to_string() }
}

fn group(id: i32, gname: &str, is_close: bool) -> Group {
    Group { id, gname: gname.to_string(), is_close }
}

fn triples(pairs: &[NewSanta]) -> Vec<(i32, i32, i32)> {
    pairs.iter().map(|p| (p.group_id, p.santa_id, p.recipient_id)).collect()
}

#[test]
fn each_gives_to_the_next_and_the_last_to_the_first() {
    let order = vec![
        member(10, 4, 7, Role::Admin),
        member(11, 9, 7, Role::Member),
        member(12, 2, 7, Role::Member),
        member(13, 5, 7, Role::Member),
    ];
    let pairs = link_cycle(7, &order);
    assert_eq!(triples(&pairs), vec![(7, 5, 4), (7, 4, 9), (7, 9, 2), (7, 2, 5)]);
}

#[test]
fn two_members_give_to_each_other() {
    let order = vec![member(1, 1, 3, Role::Admin), member(2, 2, 3, Role::Member)];
    assert_eq!(triples(&link_cycle(3, &order)), vec![(3, 2, 1), (3, 1, 2)]);
}

#[test]
fn short_orders_are_linked_too() {
    assert!(link_cycle(1, &Vec::new()).is_empty());
    let alone = vec![member(1, 8, 1, Role::Admin)];
    assert_eq!(triples(&link_cycle(1, &alone)), vec![(1, 8, 8)]);
}

#[test]
fn only_admins_manage() {
    assert!(check_manage(Role::Admin).is_ok());
    let err = check_manage(Role::Member).unwrap_err();
    assert_eq!((err.kind, err.message.as_str()), (ErrorKind::Forbidden, "Not enough right"));
}

#[test]
fn only_open_groups_take_members() {
    assert!(check_join(false).is_ok());
    let err = check_join(true).unwrap_err();
    assert_eq!((err.kind, err.message.as_str()), (ErrorKind::InvalidState, "Group close"));
}

#[test]
fn closing_asks_for_the_role_before_the_state() {
    assert!(check_close(Role::Admin, false).is_ok());
    assert_eq!(check_close(Role::Member, false).unwrap_err().kind, ErrorKind::Forbidden);
    assert_eq!(check_close(Role::Member, true).unwrap_err().kind, ErrorKind::Forbidden);
    let err = check_close(Role::Admin, true).unwrap_err();
    assert_eq!((err.kind, err.message.as_str()), (ErrorKind::InvalidState, "Group close"));
}

#[test]
fn an_exchange_needs_two_members() {
    for n in [0, 1] {
        let err = check_quorum(n).unwrap_err();
        assert_eq!(err.kind, ErrorKind::PreconditionFailed);
        assert_eq!(err.message, "Not enough count members");
    }
    assert!(check_quorum(2).is_ok());
    assert!(check_quorum(usize::MAX).is_ok());
}

#[test]
fn stepping_down_needs_the_role_and_another_admin() {
    assert_eq!(check_demote(Role::Member, 5).unwrap_err().kind, ErrorKind::Forbidden);
    assert_eq!(check_demote(Role::Member, 0).unwrap_err().kind, ErrorKind::Forbidden);
    for n in [0, 1] {
        let err = check_demote(Role::Admin, n).unwrap_err();
        assert_eq!((err.kind, err.message.as_str()), (ErrorKind::PreconditionFailed, "Not enough admins"));
    }
    assert!(check_demote(Role::Admin, 2).is_ok());
}

#[test]
fn recipients_are_revealed_by_closed_groups() {
    assert!(check_reveal(true).is_ok());
    let err = check_reveal(false).unwrap_err();
    assert_eq!(err.kind, ErrorKind::InvalidState);
    assert_eq!(err.message, "It's too early to recognize Santa");
}

#[test]
fn errors_carry_their_kind_and_text() {
    let e = error_same_name("Group".to_string());
    assert_eq!((e.kind, e.message.as_str()), (ErrorKind::Conflict, "Group with the same name already exists"));
    let e = error_internal_server();
    assert_eq!((e.kind, e.message.as_str()), (ErrorKind::Internal, "Error"));
    let e = error_bad_request("gone".to_string());
    assert_eq!((e.kind, e.message.as_str()), (ErrorKind::NotFound, "gone"));
    let e = error_method_not_allowed("no".to_string());
    assert_eq!((e.kind, e.message.as_str()), (ErrorKind::Forbidden, "no"));
    let e = error_too_early("wait".to_string());
    assert_eq!((e.kind, e.message.as_str()), (ErrorKind::InvalidState, "wait"));
    let e = error_precondition_failed("few".to_string());
    assert_eq!((e.kind, e.message.as_str()), (ErrorKind::PreconditionFailed, "few"));
}

#[test]
fn records_change_one_field() {
    let closed = group(3, "xmas", false).close_group();
    assert_eq!((closed.id, closed.gname.as_str(), closed.is_close), (3, "xmas", true));
    assert!(closed.close_group().is_close);

    let promoted = member(5, 6, 7, Role::Member).set_role(Role::Admin);
    assert_eq!((promoted.id, promoted.user_id, promoted.group_id), (5, 6, 7));
    assert_eq!(promoted.urole, Role::Admin);
    assert_eq!(promoted.set_role(Role::Member).urole, Role::Member);

    let e = ConversionError::not_found("Unexpected `Role`: 7".to_string());
    assert_eq!((e.msg.as_str(), e.status), ("Unexpected `Role`: 7", 404));
}

#[test]
fn requests_hold_their_names() {
    let one = Username { username: "alice".to_string() };
    let two = UserGroupName { username: "alice".to_string(), group_name: "xmas".to_string() };
    let three = NewAdminUserGroupName {
        username: "alice".to_string(),
        group_name: "xmas".to_string(),
        new_admin: "bob".to_string(),
    };
    assert_eq!(one.username, two.username);
    assert_eq!(two.group_name, three.group_name);
    assert_eq!(three.new_admin, "bob");
}

#[test]
fn the_store_finds_what_it_stored() {
    let mut store = Store::new();
    assert_eq!(store.get_user("alice").unwrap_err(), StorageError::NotFound);
    store.create_user("alice").unwrap();
    store.create_user("bob").unwrap();
    assert_eq!(store.create_user("bob").unwrap_err(), StorageError::DuplicateKey);
    let bob = store.get_user("bob").unwrap();
    assert_eq!((bob.id, bob.name.as_str()), (2, "bob"));

    assert_eq!(store.get_group("xmas").unwrap_err(), StorageError::NotFound);
    store.create_group("xmas").unwrap();
    assert_eq!(store.create_group("xmas").unwrap_err(), StorageError::DuplicateKey);
    let xmas = store.get_group("xmas").unwrap();
    assert_eq!((xmas.id, xmas.is_close), (1, false));
    assert!(store.has_group(1));
    assert!(!store.has_group(2));

    assert_eq!(store.get_member(&bob, &xmas).unwrap_err(), StorageError::NotFound);
    store.create_member(&bob, &xmas, Role::Member).unwrap();
    assert_eq!(store.create_member(&bob, &xmas, Role::Admin).unwrap_err(), StorageError::DuplicateKey);
    let joined = store.get_member(&bob, &xmas).unwrap();
    assert_eq!((joined.id, joined.user_id, joined.group_id, joined.urole), (1, 2, 1, Role::Member));
    assert_eq!(store.get_user_from_member(&joined).unwrap().name, "bob");
    assert_eq!(
        store.get_user_from_member(&member(9, 77, 1, Role::Member)).unwrap_err(),
        StorageError::NotFound
    );
    assert_eq!(store.count_admins(&xmas), 0);
    store.update_member(joined.set_role(Role::Admin)).unwrap();
    assert_eq!(store.count_admins(&xmas), 1);
    assert_eq!(store.update_member(member(9, 2, 1, Role::Admin)).unwrap_err(), StorageError::NotFound);
    assert_eq!(store.get_members(&xmas).len(), 1);
    assert!(store.get_members(&group(5, "none", false)).is_empty());
}

#[test]
fn the_store_marks_groups_and_lists_the_open_ones() {
    let mut store = Store::new();
    store.create_group("xmas").unwrap();
    store.create_group("easter").unwrap();
    let xmas = store.get_group("xmas").unwrap();
    store.update_group(&xmas.close_group()).unwrap();
    assert!(store.get_group("xmas").unwrap().is_close);
    let open = store.get_open_groups();
    assert_eq!(open.len(), 1);
    assert_eq!(open[0].gname, "easter");
    assert_eq!(store.update_group(&group(9, "xmas", true)).unwrap_err(), StorageError::NotFound);
    store.update_group(&group(1, "renamed", false)).unwrap();
    let again = store.get_group("xmas").unwrap();
    assert!(!again.is_close);
    assert_eq!(store.get_group("renamed").unwrap_err(), StorageError::NotFound);
}

#[test]
fn a_group_and_its_admin_are_stored_together() {
    let mut store = Store::new();
    store.create_user("alice").unwrap();
    let alice = store.get_user("alice").unwrap();
    store.create_group_with_admin("xmas", &alice).unwrap();
    assert_eq!(store.groups().len(), 1);
    assert_eq!(store.members().len(), 1);
    assert_eq!(store.members()[0].urole, Role::Admin);
    assert_eq!(
        store.create_group_with_admin("xmas", &alice).unwrap_err(),
        StorageError::DuplicateKey
    );
    assert_eq!(store.groups().len(), 1);
    assert_eq!(store.members().len(), 1);
}

#[test]
fn a_group_is_not_stored_without_its_admin() {
    let members = vec![member(1, 1, 3, Role::Member)];
    let groups = vec![group(2, "old", false)];
    let mut store = Store::from_rows(vec![user(1, "alice")], groups, members, Vec::new()).unwrap();
    let alice = store.get_user("alice").unwrap();
    assert_eq!(
        store.create_group_with_admin("xmas", &alice).unwrap_err(),
        StorageError::DuplicateKey
    );
    assert_eq!(store.groups().len(), 1);
    assert_eq!(store.members().len(), 1);
    store.create_group("next").unwrap();
    assert_eq!(store.get_group("next").unwrap().id, 3);
}

#[test]
fn pairings_are_stored_once_for_each_santa() {
    let mut store = Store::new();
    let xmas = group(1, "xmas", false);
    let (a, b, c) = (user(1, "a"), user(2, "b"), user(3, "c"));
    store.create_user("a").unwrap();
    store.create_user("b").unwrap();
    store.set_santa(&xmas, &a, &b).unwrap();
    assert_eq!(store.set_santa(&xmas, &a, &c).unwrap_err(), StorageError::DuplicateKey);
    assert_eq!(store.get_santa_recipient(&xmas, &a).unwrap().name, "b");
    assert_eq!(store.get_santa_recipient(&xmas, &b).unwrap_err(), StorageError::NotFound);
    store.set_santa(&xmas, &b, &c).unwrap();
    assert_eq!(store.get_santa_recipient(&xmas, &b).unwrap_err(), StorageError::NotFound);
    let rows: Vec<(i32, i32, i32, i32)> =
        store.santas().iter().map(|r| (r.id, r.group_id, r.santa_id, r.recipient_id)).collect();
    assert_eq!(rows, vec![(1, 1, 1, 2), (2, 1, 2, 3)]);
}

#[test]
fn pairings_are_stored_all_or_none() {
    let mut store = Store::new();
    let new = |s, r| NewSanta { group_id: 1, santa_id: s, recipient_id: r };
    store.set_santas(&vec![new(1, 2), new(2, 1)]).unwrap();
    assert_eq!(store.santas().len(), 2);
    let refused = store.set_santas(&vec![new(3, 4), new(4, 3), new(1, 3)]);
    assert_eq!(refused.unwrap_err(), StorageError::DuplicateKey);
    assert_eq!(store.santas().len(), 2);
    store.set_santas(&vec![new(3, 4)]).unwrap();
    assert_eq!(store.santas()[2].id, 3);
    store.set_santas(&Vec::new()).unwrap();
    assert_eq!(store.santas().len(), 3);
}

#[test]
fn the_last_number_is_never_given_out_twice() {
    let santas = vec![Santa { id: i32::MAX - 1, group_id: 1, santa_id: 1, recipient_id: 2 }];
    let mut store =
        Store::from_rows(vec![user(i32::MAX, "last")], Vec::new(), Vec::new(), santas).unwrap();
    assert_eq!(store.create_user("more").unwrap_err(), StorageError::Exhausted);
    assert_eq!(store.users().len(), 1);
    let new = |s, r| NewSanta { group_id: 1, santa_id: s, recipient_id: r };
    assert_eq!(store.set_santas(&vec![new(2, 3), new(3, 1)]).unwrap_err(), StorageError::Exhausted);
    assert_eq!(store.santas().len(), 1);
    store.set_santas(&vec![new(2, 3)]).unwrap();
    assert_eq!(store.santas()[1].id, i32::MAX);
}

#[test]
fn rows_are_loaded_where_their_keys_are_distinct() {
    let users = || vec![user(3, "alice"), user(-5, "bob")];
    let groups = || vec![group(8, "xmas", true)];
    let members = || vec![member(1, 3, 8, Role::Admin), member(2, -5, 8, Role::Member)];
    let santas = || {
        vec![
            Santa { id: 1, group_id: 8, santa_id: 3, recipient_id: -5 },
            Santa { id: 2, group_id: 8, santa_id: -5, recipient_id: 3 },
        ]
    };
    let mut store = Store::from_rows(users(), groups(), members(), santas()).unwrap();
    assert_eq!(store.get_santa_recipient(&groups()[0], &users()[1]).unwrap().name, "alice");
    store.create_user("carol").unwrap();
    assert_eq!(store.get_user("carol").unwrap().id, 4);
    store.create_group("easter").unwrap();
    assert_eq!(store.get_group("easter").unwrap().id, 9);

    let same_name = vec![user(1, "alice"), user(2, "alice")];
    assert!(Store::from_rows(same_name, groups(), members(), santas()).is_none());
    let same_number = vec![user(1, "alice"), user(1, "bob")];
    assert!(Store::from_rows(same_number, Vec::new(), Vec::new(), Vec::new()).is_none());
    let same_group = vec![group(1, "xmas", false), group(2, "xmas", true)];
    assert!(Store::from_rows(users(), same_group, members(), santas()).is_none());
    let twice = vec![member(1, 3, 8, Role::Admin), member(2, 3, 8, Role::Member)];
    assert!(Store::from_rows(users(), groups(), twice, santas()).is_none());
    let two_gifts = vec![
        Santa { id: 1, group_id: 8, santa_id: 3, recipient_id: -5 },
        Santa { id: 2, group_id: 8, santa_id: 3, recipient_id: 3 },
    ];
    assert!(Store::from_rows(users(), groups(), members(), two_gifts).is_none());
    let only_negative = Store::from_rows(vec![user(-2, "x")], Vec::new(), Vec::new(), Vec::new());
    let mut store = only_negative.unwrap();
    store.create_user("y").unwrap();
    assert_eq!(store.get_user("y").unwrap().id, 1);
}

#[test]
fn deleting_a_group_takes_its_rows_along() {
    let mut store = Store::new();
    store.create_user("alice").unwrap();
    let alice = store.get_user("alice").unwrap();
    store.create_group_with_admin("xmas", &alice).unwrap();
    store.create_group_with_admin("easter", &alice).unwrap();
    let xmas = store.get_group("xmas").unwrap();
    let easter = store.get_group("easter").unwrap();
    store.set_santa(&xmas, &alice, &alice).unwrap();
    store.set_santa(&easter, &alice, &alice).unwrap();
    store.delete_group(xmas);
    assert_eq!(store.groups().len(), 1);
    assert_eq!(store.members().len(), 1);
    assert_eq!(store.members()[0].group_id, 2);
    assert_eq!(store.santas().len(), 1);
    assert_eq!(store.santas()[0].group_id, 2);
    store.delete_group(group(77, "none", false));
    assert_eq!(store.groups().len(), 1);
}
