use secret_santa::database::Database;
use secret_santa::errors::ErrorKind;
use secret_santa::models::Role;

fn xmas_with(names: &[&str]) -> Database {
    let mut db = Database::new();
    for name in names {
        db.create_user(name).unwrap();
    }
    db.create_group_by_user(names[0], "xmas").unwrap();
    for name in &names[1..] {
        db.add_user_to_group(name, "xmas").unwrap();
    }
    db
}

#[test]
fn closing_alone_fails_and_group_stays_open() {
    let mut db = Database::new();
    db.create_user("alice").unwrap();
    db.create_group_by_user("alice", "xmas").unwrap();
    let err = db.close_group("alice", "xmas").unwrap_err();
    assert_eq!(err.kind, ErrorKind::PreconditionFailed);
    assert_eq!(err.message, "Not enough count members");
    let open = db.get_open_groups();
    assert_eq!(open.len(), 1);
    assert_eq!(open[0].gname, "xmas");
    assert!(!open[0].is_close);
    assert!(db.store().santas().is_empty());
}

#[test]
fn three_friends_close_their_group() {
    let mut db = xmas_with(&["alice", "bob", "carol"]);
    db.close_group("alice", "xmas").unwrap();

    let rows = db.store().santas();
    assert_eq!(rows.len(), 3);
    let mut at = 1;
    for step in 0..3 {
        let row = rows.iter().find(|r| r.santa_id == at).unwrap();
        assert_ne!(row.recipient_id, row.santa_id);
        at = row.recipient_id;
        assert_eq!(at == 1, step == 2);
    }

    let mut names = db.get_group_members("alice", "xmas").unwrap();
    names.sort();
    assert_eq!(names, vec!["alice", "bob", "carol"]);

    let err = db.get_group_members("bob", "xmas").unwrap_err();
    assert_eq!(err.kind, ErrorKind::Forbidden);
    assert_eq!(err.message, "Not enough right");
}

#[test]
fn registering_a_name_twice_is_a_conflict() {
    let mut db = Database::new();
    assert!(db.create_user("alice").is_ok());
    let err = db.create_user("alice").unwrap_err();
    assert_eq!(err.kind, ErrorKind::Conflict);
    assert_eq!(err.message, "User with the same name already exists");
    assert_eq!(db.store().users().len(), 1);
}

#[test]
fn users_are_numbered_from_one() {
    let mut db = Database::new();
    db.create_user("alice").unwrap();
    db.create_user("bob").unwrap();
    let users = db.store().users();
    assert_eq!(users[0].id, 1);
    assert_eq!(users[0].name, "alice");
    assert_eq!(users[1].id, 2);
    assert_eq!(users[1].name, "bob");
}

#[test]
fn a_new_group_is_open_and_its_creator_is_admin() {
    let mut db = Database::new();
    db.create_user("alice").unwrap();
    db.create_group_by_user("alice", "xmas").unwrap();
    let groups = db.store().groups();
    assert_eq!(groups.len(), 1);
    assert_eq!(groups[0].id, 1);
    assert_eq!(groups[0].gname, "xmas");
    assert!(!groups[0].is_close);
    let members = db.store().members();
    assert_eq!(members.len(), 1);
    assert_eq!(members[0].user_id, 1);
    assert_eq!(members[0].group_id, 1);
    assert_eq!(members[0].urole, Role::Admin);
}

#[test]
fn creating_a_group_needs_a_known_user_and_a_free_name() {
    let mut db = Database::new();
    let err = db.create_group_by_user("nobody", "xmas").unwrap_err();
    assert_eq!(err.kind, ErrorKind::NotFound);
    assert_eq!(err.message, "This user was not found");

    db.create_user("alice").unwrap();
    db.create_user("bob").unwrap();
    db.create_group_by_user("alice", "xmas").unwrap();
    let err = db.create_group_by_user("bob", "xmas").unwrap_err();
    assert_eq!(err.kind, ErrorKind::Conflict);
    assert_eq!(err.message, "Group with the same name already exists");
    assert_eq!(db.store().groups().len(), 1);
    assert_eq!(db.store().members().len(), 1);
}

#[test]
fn joining_checks_user_group_and_membership() {
    let mut db = xmas_with(&["alice", "bob"]);
    let err = db.add_user_to_group("nobody", "xmas").unwrap_err();
    assert_eq!(err.kind, ErrorKind::NotFound);
    assert_eq!(err.message, "This user was not found");
    let err = db.add_user_to_group("bob", "easter").unwrap_err();
    assert_eq!(err.kind, ErrorKind::NotFound);
    assert_eq!(err.message, "This group was not found");
    let err = db.add_user_to_group("bob", "xmas").unwrap_err();
    assert_eq!(err.kind, ErrorKind::Conflict);
    assert_eq!(err.message, "Member with the same name already exists");
    let members = db.store().members();
    assert_eq!(members.len(), 2);
    assert_eq!(members[1].urole, Role::Member);
}

#[test]
fn nobody_joins_a_closed_group() {
    let mut db = xmas_with(&["alice", "bob"]);
    db.create_user("carol").unwrap();
    db.close_group("alice", "xmas").unwrap();
    for name in ["carol", "alice", "bob"] {
        let err = db.add_user_to_group(name, "xmas").unwrap_err();
        assert_eq!(err.kind, ErrorKind::InvalidState);
        assert_eq!(err.message, "Group close");
    }
    assert_eq!(db.store().members().len(), 2);
}

#[test]
fn a_closed_group_stays_closed() {
    let mut db = xmas_with(&["alice", "bob"]);
    db.create_user("carol").unwrap();
    db.close_group("alice", "xmas").unwrap();
    assert!(db.store().groups()[0].is_close);

    let err = db.close_group("alice", "xmas").unwrap_err();
    assert_eq!(err.kind, ErrorKind::InvalidState);
    db.add_admin_to_group("alice", "bob", "xmas").unwrap();
    db.revoke_rights_of_admin("alice", "xmas").unwrap();
    db.create_group_by_user("carol", "easter").unwrap();
    db.create_user("dave").unwrap();
    let _ = db.add_user_to_group("dave", "xmas");

    assert!(db.store().groups()[0].is_close);
    assert_eq!(db.store().santas().len(), 2);
    let open = db.get_open_groups();
    assert_eq!(open.len(), 1);
    assert_eq!(open[0].gname, "easter");
}

#[test]
fn closing_needs_an_admin_of_an_open_group() {
    let mut db = xmas_with(&["alice", "bob"]);
    db.create_user("carol").unwrap();
    let err = db.close_group("nobody", "xmas").unwrap_err();
    assert_eq!(err.kind, ErrorKind::NotFound);
    let err = db.close_group("alice", "easter").unwrap_err();
    assert_eq!(err.kind, ErrorKind::NotFound);
    let err = db.close_group("carol", "xmas").unwrap_err();
    assert_eq!(err.kind, ErrorKind::NotFound);
    assert_eq!(err.message, "This member was not found");
    let err = db.close_group("bob", "xmas").unwrap_err();
    assert_eq!(err.kind, ErrorKind::Forbidden);
    assert_eq!(err.message, "Not enough rights");
    assert!(db.store().santas().is_empty());
    assert!(!db.store().groups()[0].is_close);
}

#[test]
fn every_member_gives_once_and_receives_once() {
    let names = ["ann", "ben", "cat", "dan", "eve", "fay", "gus"];
    let mut db = xmas_with(&names);
    db.close_group("ann", "xmas").unwrap();
    let rows = db.store().santas();
    assert_eq!(rows.len(), names.len());
    for id in 1..=names.len() as i32 {
        assert_eq!(rows.iter().filter(|r| r.santa_id == id).count(), 1);
        assert_eq!(rows.iter().filter(|r| r.recipient_id == id).count(), 1);
    }
    assert!(rows.iter().all(|r| r.santa_id != r.recipient_id && r.group_id == 1));

    let mut seen = vec![1];
    let mut at = rows.iter().find(|r| r.santa_id == 1).unwrap().recipient_id;
    while at != 1 {
        assert!(!seen.contains(&at));
        seen.push(at);
        at = rows.iter().find(|r| r.santa_id == at).unwrap().recipient_id;
    }
    assert_eq!(seen.len(), names.len());
}

#[test]
fn the_order_of_the_members_is_left_to_chance() {
    let names = ["ann", "ben", "cat", "dan", "eve", "fay"];
    let mut first: Option<Vec<i32>> = None;
    let mut differs = false;
    for _ in 0..60 {
        let mut db = xmas_with(&names);
        db.close_group("ann", "xmas").unwrap();
        let recipients: Vec<i32> = db.store().santas().iter().map(|r| r.recipient_id).collect();
        match &first {
            None => first = Some(recipients),
            Some(seen) => differs = differs || *seen != recipients,
        }
    }
    assert!(differs);
}

#[test]
fn the_sole_admin_cannot_step_down() {
    let mut db = xmas_with(&["alice", "bob"]);
    let err = db.revoke_rights_of_admin("alice", "xmas").unwrap_err();
    assert_eq!(err.kind, ErrorKind::PreconditionFailed);
    assert_eq!(err.message, "Not enough admins");
    assert_eq!(db.store().members()[0].urole, Role::Admin);

    let err = db.revoke_rights_of_admin("bob", "xmas").unwrap_err();
    assert_eq!(err.kind, ErrorKind::Forbidden);
}

#[test]
fn one_of_two_admins_steps_down() {
    let mut db = xmas_with(&["alice", "bob"]);
    db.add_admin_to_group("alice", "bob", "xmas").unwrap();
    let group = db.store().get_group("xmas").unwrap();
    assert_eq!(db.store().count_admins(&group), 2);
    db.revoke_rights_of_admin("alice", "xmas").unwrap();
    assert_eq!(db.store().count_admins(&group), 1);
    assert_eq!(db.store().members()[0].urole, Role::Member);
    assert_eq!(db.store().members()[1].urole, Role::Admin);
    let err = db.revoke_rights_of_admin("bob", "xmas").unwrap_err();
    assert_eq!(err.kind, ErrorKind::PreconditionFailed);
}

#[test]
fn naming_an_admin_checks_actor_then_target() {
    let mut db = xmas_with(&["alice", "bob"]);
    db.create_user("carol").unwrap();
    let err = db.add_admin_to_group("alice", "bob", "easter").unwrap_err();
    assert_eq!((err.kind, err.message.as_str()), (ErrorKind::NotFound, "This group was not found"));
    let err = db.add_admin_to_group("nobody", "bob", "xmas").unwrap_err();
    assert_eq!((err.kind, err.message.as_str()), (ErrorKind::NotFound, "This user was not found"));
    let err = db.add_admin_to_group("carol", "bob", "xmas").unwrap_err();
    assert_eq!((err.kind, err.message.as_str()), (ErrorKind::NotFound, "This member was not found"));
    let err = db.add_admin_to_group("bob", "alice", "xmas").unwrap_err();
    assert_eq!(err.kind, ErrorKind::Forbidden);
    let err = db.add_admin_to_group("alice", "nobody", "xmas").unwrap_err();
    assert_eq!((err.kind, err.message.as_str()), (ErrorKind::NotFound, "This user was not found"));
    let err = db.add_admin_to_group("alice", "carol", "xmas").unwrap_err();
    assert_eq!((err.kind, err.message.as_str()), (ErrorKind::NotFound, "This member was not found"));
    db.add_admin_to_group("alice", "bob", "xmas").unwrap();
    assert_eq!(db.store().members()[1].urole, Role::Admin);
}

#[test]
fn recipients_are_told_after_closing_only() {
    let mut db = xmas_with(&["alice", "bob", "carol"]);
    db.create_user("dave").unwrap();
    let err = db.get_recipient_name("alice", "xmas").unwrap_err();
    assert_eq!(err.kind, ErrorKind::InvalidState);
    assert_eq!(err.message, "It's too early to recognize Santa");
    let err = db.get_recipient_name("nobody", "xmas").unwrap_err();
    assert_eq!(err.kind, ErrorKind::NotFound);
    let err = db.get_recipient_name("alice", "easter").unwrap_err();
    assert_eq!(err.kind, ErrorKind::NotFound);

    db.close_group("alice", "xmas").unwrap();
    for row in db.store().santas().clone() {
        let santa = db.store().users()[(row.santa_id - 1) as usize].name.clone();
        let recipient = db.store().users()[(row.recipient_id - 1) as usize].name.clone();
        assert_eq!(db.get_recipient_name(&santa, "xmas").unwrap(), recipient);
    }
    let err = db.get_recipient_name("dave", "xmas").unwrap_err();
    assert_eq!(err.kind, ErrorKind::Internal);
    assert_eq!(err.message, "Error");
}

#[test]
fn an_admin_deletes_a_group_with_all_that_belongs_to_it() {
    let mut db = xmas_with(&["alice", "bob"]);
    db.create_group_by_user("bob", "easter").unwrap();
    db.add_user_to_group("alice", "easter").unwrap();
    db.close_group("alice", "xmas").unwrap();

    let err = db.delete_group_by_admin("bob", "xmas").unwrap_err();
    assert_eq!(err.kind, ErrorKind::Forbidden);
    let err = db.delete_group_by_admin("alice", "nothing").unwrap_err();
    assert_eq!(err.kind, ErrorKind::NotFound);
    assert_eq!(db.store().groups().len(), 2);

    db.delete_group_by_admin("alice", "xmas").unwrap();
    assert_eq!(db.store().groups().len(), 1);
    assert_eq!(db.store().groups()[0].gname, "easter");
    assert!(db.store().members().iter().all(|m| m.group_id == 2));
    assert_eq!(db.store().members().len(), 2);
    assert!(db.store().santas().is_empty());
    assert_eq!(db.store().users().len(), 2);
    let err = db.get_group_members("alice", "xmas").unwrap_err();
    assert_eq!(err.kind, ErrorKind::NotFound);
}

#[test]
fn members_are_listed_in_the_order_they_joined() {
    let db = xmas_with(&["carol", "alice", "bob"]);
    assert_eq!(db.get_group_members("carol", "xmas").unwrap(), vec!["carol", "alice", "bob"]);
    let err = db.get_group_members("dave", "xmas").unwrap_err();
    assert_eq!(err.kind, ErrorKind::NotFound);
}

#[test]
fn open_groups_are_listed_without_the_closed_ones() {
    let mut db = xmas_with(&["alice", "bob"]);
    db.create_group_by_user("bob", "easter").unwrap();
    db.create_group_by_user("bob", "halloween").unwrap();
    assert_eq!(db.get_open_groups().len(), 3);
    db.close_group("alice", "xmas").unwrap();
    let open: Vec<String> = db.get_open_groups().into_iter().map(|g| g.gname).collect();
    assert_eq!(open, vec!["easter", "halloween"]);
    assert!(Database::new().get_open_groups().is_empty());
}

#[test]
fn a_chosen_order_gives_exactly_its_pairings() {
    let mut db = xmas_with(&["alice", "bob", "carol"]);
    let (group, members) = db.closing_members("alice", "xmas").unwrap();
    assert_eq!(members.iter().map(|m| m.user_id).collect::<Vec<_>>(), vec![1, 2, 3]);
    let order = vec![members[2], members[0], members[1]];
    db.assign_santas(&group, &order).unwrap();
    let rows: Vec<(i32, i32, i32, i32)> =
        db.store().santas().iter().map(|r| (r.id, r.group_id, r.santa_id, r.recipient_id)).collect();
    assert_eq!(rows, vec![(1, 1, 2, 3), (2, 1, 3, 1), (3, 1, 1, 2)]);
    assert!(db.store().groups()[0].is_close);
    assert_eq!(db.get_recipient_name("carol", "xmas").unwrap(), "alice");
    assert_eq!(db.get_recipient_name("alice", "xmas").unwrap(), "bob");
    assert_eq!(db.get_recipient_name("bob", "xmas").unwrap(), "carol");
}

#[test]
fn an_order_that_names_a_member_twice_changes_nothing() {
    let mut db = xmas_with(&["alice", "bob"]);
    let (group, members) = db.closing_members("alice", "xmas").unwrap();
    let order = vec![members[0], members[1], members[0]];
    let err = db.assign_santas(&group, &order).unwrap_err();
    assert_eq!(err.kind, ErrorKind::Internal);
    assert!(db.store().santas().is_empty());
    assert!(!db.store().groups()[0].is_close);
}
