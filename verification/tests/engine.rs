use game_library::db::DatabaseError;
use game_library::model::{Owner, Project};
use game_library::tags::{Tag, TagStore};

#[test]
fn asof_half_open_boundaries() {
    // One pair, two intervals: [10, 20) and [20, open).
    let mut s = TagStore::new();
    assert_eq!(s.create_tag("x").unwrap(), Tag(1));
    s.create_project_tag_row(Owner(1), Project(1), Tag(1), 10).unwrap();
    s.retire_project_tag_row(Owner(1), Project(1), Tag(1), 20).unwrap();
    s.create_project_tag_row(Owner(1), Project(1), Tag(1), 20).unwrap();

    assert_eq!(s.get_project_tags_at(Project(1), 15), ["x".to_string()]);
    assert_eq!(s.get_project_tags_at(Project(1), 20), ["x".to_string()]);
    assert_eq!(s.get_project_tags_at(Project(1), 5), [] as [String; 0]);
}

#[test]
fn atomicity_add_bogus() {
    // A batch with one resolvable and one unresolvable addition fails as
    // a whole: not even the resolvable tag is added.
    let mut s = TagStore::new();
    s.create_tag("valid").unwrap();

    assert_eq!(
        s.update_project_tags(
            Owner(1),
            Project(1),
            &vec!["valid".to_string(), "bogus".into()],
            &vec![],
            7,
        )
        .unwrap_err(),
        DatabaseError::NotFound
    );
    assert_eq!(s.get_project_tags(Project(1)), [] as [String; 0]);
    assert_eq!(s.marks().len(), 0);
}

#[test]
fn list_all_tags_case_insensitive_order() {
    let mut s = TagStore::new();
    s.create_tag("b").unwrap();
    s.create_tag("A").unwrap();
    s.create_tag("c").unwrap();
    assert_eq!(s.get_tags(), ["A".to_string(), "b".into(), "c".into()]);
}

#[test]
fn scenario_remove_then_add_history() {
    // Project initially tagged {a, b}; remove "a", then add "c"; the
    // history still answers for the time before the first change.
    let mut s = TagStore::new();
    assert_eq!(s.create_tag("a").unwrap(), Tag(1));
    assert_eq!(s.create_tag("b").unwrap(), Tag(2));
    assert_eq!(s.create_tag("c").unwrap(), Tag(3));
    s.create_project_tag_row(Owner(1), Project(5), Tag(1), 0).unwrap();
    s.create_project_tag_row(Owner(1), Project(5), Tag(2), 0).unwrap();

    let t1 = 10;
    let changed = s
        .update_project_tags_in_trans(Owner(1), Project(5), &vec![], &vec!["a".to_string()], t1)
        .unwrap();
    assert!(changed);
    assert_eq!(s.get_project_tags(Project(5)), ["b".to_string()]);

    let t2 = 20;
    let changed = s
        .update_project_tags_in_trans(Owner(1), Project(5), &vec!["c".to_string()], &vec![], t2)
        .unwrap();
    assert!(changed);
    assert_eq!(s.get_project_tags(Project(5)), ["b".to_string(), "c".into()]);

    assert_eq!(
        s.get_project_tags_at(Project(5), t1 - 1),
        ["a".to_string(), "b".into()]
    );
}

#[test]
fn open_twice_refused() {
    let mut s = TagStore::new();
    assert_eq!(s.create_tag("a").unwrap(), Tag(1));
    s.create_project_tag_row(Owner(1), Project(1), Tag(1), 0).unwrap();
    assert_eq!(
        s.create_project_tag_row(Owner(1), Project(1), Tag(1), 1).unwrap_err(),
        DatabaseError::AlreadyExists
    );
}

#[test]
fn close_twice_refused() {
    let mut s = TagStore::new();
    assert_eq!(s.create_tag("a").unwrap(), Tag(1));
    s.create_project_tag_row(Owner(1), Project(1), Tag(1), 0).unwrap();
    s.retire_project_tag_row(Owner(1), Project(1), Tag(1), 5).unwrap();
    assert_eq!(
        s.retire_project_tag_row(Owner(1), Project(1), Tag(1), 6).unwrap_err(),
        DatabaseError::NotFound
    );
}

#[test]
fn idempotent_add_no_change() {
    // Adding a tag the project already holds changes nothing and stamps
    // nothing.
    let mut s = TagStore::new();
    assert_eq!(s.create_tag("a").unwrap(), Tag(1));
    s.create_project_tag_row(Owner(1), Project(1), Tag(1), 0).unwrap();

    s.update_project_tags(Owner(1), Project(1), &vec!["a".to_string()], &vec![], 9)
        .unwrap();

    assert_eq!(s.get_project_tags(Project(1)), ["a".to_string()]);
    assert_eq!(s.marks().len(), 0);
}

#[test]
fn idempotent_remove_no_change() {
    // Removing a tag the project does not hold, or an unknown name, is a
    // quiet no-op.
    let mut s = TagStore::new();
    assert_eq!(s.create_tag("a").unwrap(), Tag(1));

    s.update_project_tags(
        Owner(1),
        Project(1),
        &vec![],
        &vec!["a".to_string(), "ghost".into()],
        9,
    )
    .unwrap();

    assert_eq!(s.get_project_tags(Project(1)), [] as [String; 0]);
    assert_eq!(s.marks().len(), 0);
}

#[test]
fn change_stamps_project() {
    let mut s = TagStore::new();
    assert_eq!(s.create_tag("a").unwrap(), Tag(1));

    s.update_project_tags(Owner(9), Project(4), &vec!["a".to_string()], &vec![], 33)
        .unwrap();

    assert_eq!(s.marks().len(), 1);
    assert_eq!(s.marks()[0].project, 4);
    assert_eq!(s.marks()[0].actor, 9);
    assert_eq!(s.marks()[0].at, 33);
}

#[test]
fn create_tag_case_insensitive_conflict() {
    let mut s = TagStore::new();
    s.create_tag("Strategy").unwrap();
    assert_eq!(
        s.create_tag("strategy").unwrap_err(),
        DatabaseError::AlreadyExists
    );
}

#[test]
fn implicit_tag_creation_enabled() {
    let mut s = TagStore::new();
    assert!(!s.allows_tag_creation());
    s.set_allow_tag_creation(true);
    assert!(s.allows_tag_creation());

    s.update_project_tags(Owner(1), Project(1), &vec!["new-tag".to_string()], &vec![], 3)
        .unwrap();

    assert_eq!(s.get_tags(), ["new-tag".to_string()]);
    assert_eq!(s.get_project_tags(Project(1)), ["new-tag".to_string()]);
    assert_eq!(s.marks().len(), 1);
}

#[test]
fn duplicate_add_in_one_batch() {
    // The first occurrence opens the pair; the second sees it open and
    // is skipped, not refused.
    let mut s = TagStore::new();
    s.create_tag("a").unwrap();

    let changed = s
        .update_project_tags_in_trans(
            Owner(1),
            Project(1),
            &vec!["a".to_string(), "a".into()],
            &vec![],
            4,
        )
        .unwrap();

    assert!(changed);
    assert_eq!(s.get_project_tags(Project(1)), ["a".to_string()]);
}

#[test]
fn duplicate_remove_in_one_batch() {
    // The first occurrence closes the pair; the second finds it closed
    // and is skipped, not refused.
    let mut s = TagStore::new();
    s.create_tag("a").unwrap();
    s.create_project_tag_row(Owner(1), Project(1), Tag(1), 0).unwrap();

    let changed = s
        .update_project_tags_in_trans(
            Owner(1),
            Project(1),
            &vec![],
            &vec!["a".to_string(), "a".into()],
            4,
        )
        .unwrap();

    assert!(changed);
    assert_eq!(s.get_project_tags(Project(1)), [] as [String; 0]);
}

#[test]
fn implicit_creation_case_conflict() {
    let mut s = TagStore::new();
    s.set_allow_tag_creation(true);
    s.create_tag("arcade").unwrap();

    assert_eq!(
        s.update_project_tags(Owner(1), Project(1), &vec!["Arcade".to_string()], &vec![], 3)
            .unwrap_err(),
        DatabaseError::AlreadyExists
    );
    assert_eq!(s.get_tags(), ["arcade".to_string()]);
    assert_eq!(s.get_project_tags(Project(1)), [] as [String; 0]);
}
