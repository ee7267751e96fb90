use game_library::db::DatabaseError;
use game_library::model::{Owner, Project};
use game_library::tags::{Tag, TagStore};

/// A store with tags `a`, `b`, `c` and project 6 currently tagged
/// `a` and `b` (both added at instant 0 by owner 1).
fn fixture() -> TagStore {
    let mut s = TagStore::new();
    assert_eq!(s.create_tag("a").unwrap(), Tag(1));
    assert_eq!(s.create_tag("b").unwrap(), Tag(2));
    assert_eq!(s.create_tag("c").unwrap(), Tag(3));
    s.create_project_tag_row(Owner(1), Project(6), Tag(1), 0).unwrap();
    s.create_project_tag_row(Owner(1), Project(6), Tag(2), 0).unwrap();
    s
}

#[test]
fn get_tag_id_some() {
    let s = fixture();
    assert_eq!(s.get_tag_id("a"), Some(Tag(1)));
}

#[test]
fn tags_get_tag_id_none() {
    let s = fixture();
    assert_eq!(s.get_tag_id("d"), None);
}

#[test]
fn get_tags_active_ok() {
    let s = fixture();
    assert_eq!(s.get_tags_active(), ["a".to_string(), "b".into()]);
}

#[test]
fn get_tags_ok() {
    let s = fixture();
    assert_eq!(s.get_tags(), ["a".to_string(), "b".into(), "c".into()]);
}

#[test]
fn create_tag_ok() {
    let mut s = TagStore::new();
    assert_eq!(s.get_tags(), [] as [String; 0]);

    s.create_tag("c").unwrap();

    assert_eq!(s.get_tags(), ["c".to_string()]);
}

#[test]
fn create_tag_already_exists() {
    let mut s = fixture();
    assert_eq!(s.get_tags(), ["a".to_string(), "b".into(), "c".into()]);

    assert_eq!(s.create_tag("a").unwrap_err(), DatabaseError::AlreadyExists);
}

#[test]
fn get_project_tags_ok() {
    let s = fixture();
    assert_eq!(s.get_project_tags(Project(6)), ["a".to_string(), "b".into()]);
}

#[test]
fn get_project_tags_not_a_project_ok() {
    // This should not happen; the Project passed in should be good.
    // However, it's not an error if it does.
    let s = fixture();
    assert_eq!(s.get_project_tags(Project(0)), [] as [String; 0]);
}

#[test]
fn get_project_tags_at_ok() {
    let s = fixture();
    assert_eq!(
        s.get_project_tags_at(Project(6), 1762897247000000001),
        ["a".to_string(), "b".into()]
    );
}

#[test]
fn get_project_tags_at_not_a_project_ok() {
    // This should not happen; the Project passed in should be good.
    // However, it's not an error if it does.
    let s = fixture();
    assert_eq!(s.get_project_tags_at(Project(0), 0), [] as [String; 0]);
}

#[test]
fn project_has_tag_yes() {
    let s = fixture();
    assert!(s.project_has_tag(Project(6), Tag(1)));
}

#[test]
fn project_has_tag_no() {
    let s = fixture();
    assert!(!s.project_has_tag(Project(6), Tag(4)));
}

#[test]
fn project_has_tag_not_a_project_ok() {
    // This should not happen; the Project passed in should be good.
    // However, it's not an error if it does.
    let s = fixture();
    assert!(!s.project_has_tag(Project(0), Tag(1)));
}

#[test]
fn update_project_tags_remove() {
    let mut s = fixture();
    assert_eq!(s.get_project_tags(Project(6)), ["a".to_string(), "b".into()]);

    s.update_project_tags(
        Owner(1),
        Project(6),
        &vec![],
        &vec!["a".to_string()],
        1762897247000000001,
    )
    .unwrap();

    assert_eq!(s.get_project_tags(Project(6)), ["b".to_string()]);
}

#[test]
fn update_project_tags_add_existing_tag() {
    let mut s = fixture();
    assert_eq!(s.get_project_tags(Project(6)), ["a".to_string(), "b".into()]);

    s.update_project_tags(
        Owner(1),
        Project(6),
        &vec!["c".to_string()],
        &vec![],
        1762897247000000001,
    )
    .unwrap();

    assert_eq!(
        s.get_project_tags(Project(6)),
        ["a".to_string(), "b".into(), "c".into()]
    );
}

#[test]
fn update_project_tags_add_remove() {
    let mut s = fixture();
    assert_eq!(s.get_project_tags(Project(6)), ["a".to_string(), "b".into()]);

    s.update_project_tags(
        Owner(1),
        Project(6),
        &vec!["c".to_string()],
        &vec!["a".into()],
        1762897247000000001,
    )
    .unwrap();

    assert_eq!(s.get_project_tags(Project(6)), ["b".to_string(), "c".into()]);
}

#[test]
fn update_project_tags_add_already_has() {
    let mut s = fixture();
    assert_eq!(s.get_project_tags(Project(6)), ["a".to_string(), "b".into()]);

    s.update_project_tags(
        Owner(1),
        Project(6),
        &vec!["a".to_string()],
        &vec![],
        1762897247000000001,
    )
    .unwrap();

    assert_eq!(s.get_project_tags(Project(6)), ["a".to_string(), "b".into()]);
}

#[test]
fn update_project_tags_remove_does_not_have() {
    let mut s = fixture();
    assert_eq!(s.get_project_tags(Project(6)), ["a".to_string(), "b".into()]);

    s.update_project_tags(
        Owner(1),
        Project(6),
        &vec![],
        &vec!["c".to_string()],
        1762897247000000001,
    )
    .unwrap();

    assert_eq!(s.get_project_tags(Project(6)), ["a".to_string(), "b".into()]);
}

#[test]
fn update_project_tags_no_changes() {
    let mut s = fixture();
    assert_eq!(s.get_project_tags(Project(6)), ["a".to_string(), "b".into()]);

    s.update_project_tags(Owner(1), Project(6), &(vec![] as Vec<String>), &vec![], 0)
        .unwrap();

    assert_eq!(s.get_project_tags(Project(6)), ["a".to_string(), "b".into()]);
}

#[test]
fn update_project_tags_not_an_owner() {
    // This should not happen; the Owner passed in should be good.
    let mut s = fixture();
    assert!(matches!(
        s.update_project_tags(Owner(0), Project(6), &vec!["foo".to_string()], &vec![], 0)
            .unwrap_err(),
        DatabaseError::NotFound
    ));
}

#[test]
fn update_project_tags_not_a_project() {
    // This should not happen; the Project passed in should be good.
    let mut s = fixture();
    assert!(matches!(
        s.update_project_tags(Owner(1), Project(0), &vec!["foo".to_string()], &vec![], 0)
            .unwrap_err(),
        DatabaseError::NotFound
    ));
}
