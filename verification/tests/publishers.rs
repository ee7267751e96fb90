use game_library::db::DatabaseError;
use game_library::publishers::{Publisher, PublisherStore};

/// A table with publishers `ABC`, `XYZ`, `Test Game Company`, of which
/// the latter two have a project.
fn fixture() -> PublisherStore {
    let mut s = PublisherStore::new();
    assert_eq!(s.create_publisher("ABC").unwrap(), Publisher(1));
    assert_eq!(s.create_publisher("XYZ").unwrap(), Publisher(2));
    assert_eq!(s.create_publisher("Test Game Company").unwrap(), Publisher(3));
    s.add_project_publisher(Publisher(2));
    s.add_project_publisher(Publisher(3));
    s
}

#[test]
fn get_publisher_id_some() {
    let s = fixture();
    assert_eq!(s.get_publisher_id("XYZ"), Some(Publisher(2)));
}

#[test]
fn publishers_get_tag_id_none() {
    let s = fixture();
    assert_eq!(s.get_publisher_id("bogus"), None);
}

#[test]
fn get_publishers_ok() {
    let s = fixture();
    assert_eq!(
        s.get_publishers(),
        ["ABC".to_string(), "Test Game Company".into(), "XYZ".into()]
    );
}

#[test]
fn get_publishers_active_ok() {
    let s = fixture();
    assert_eq!(
        s.get_publishers_active(),
        ["Test Game Company".to_string(), "XYZ".into()]
    );
}

#[test]
fn create_publisher_ok() {
    let mut s = PublisherStore::new();
    assert_eq!(s.get_publishers(), [] as [String; 0]);

    let publisher = s.create_publisher("x").unwrap();

    assert_eq!(publisher, Publisher(1));
    assert_eq!(s.get_publishers(), ["x".to_string()]);
}

#[test]
fn create_publisher_already_exists() {
    let mut s = fixture();
    assert_eq!(
        s.get_publishers(),
        ["ABC".to_string(), "Test Game Company".into(), "XYZ".into()]
    );

    assert_eq!(
        s.create_publisher("XYZ").unwrap_err(),
        DatabaseError::AlreadyExists
    );
}

#[test]
fn get_or_create_publisher_get() {
    let mut s = fixture();
    assert_eq!(
        s.get_publishers(),
        ["ABC".to_string(), "Test Game Company".into(), "XYZ".into()]
    );

    assert_eq!(s.get_or_create_publisher("XYZ").unwrap(), Publisher(2));
}

#[test]
fn get_or_create_publisher_create() {
    let mut s = fixture();
    assert_eq!(
        s.get_publishers(),
        ["ABC".to_string(), "Test Game Company".into(), "XYZ".into()]
    );

    assert_eq!(s.get_or_create_publisher("DEF").unwrap(), Publisher(4));
}
