use game_library::db::DatabaseError;
use game_library::users::{UserData, UserStore, UserUpdateParams};

/// A store knowing users `alice` (1) and `bob` (2).
fn fixture() -> UserStore {
    let mut s = UserStore::new();
    s.update_user(&UserUpdateParams {
        id: 1,
        username: "alice".into(),
        avatar_template: "/avatars/alice/{size}.png".into(),
    });
    s.update_user(&UserUpdateParams {
        id: 2,
        username: "bob".into(),
        avatar_template: "/avatars/bob/{size}.png".into(),
    });
    s
}

#[test]
fn get_user_data_none() {
    let s = fixture();
    assert_eq!(s.get_user_data(&vec![0]), []);
}

#[test]
fn get_user_data_one() {
    let s = fixture();
    assert_eq!(
        s.get_user_data(&vec![1]),
        [UserData { id: 1, username: "alice".into() }]
    );
}

#[test]
fn get_user_data_two() {
    let s = fixture();
    assert_eq!(
        s.get_user_data(&vec![1, 2]),
        [
            UserData { id: 1, username: "alice".into() },
            UserData { id: 2, username: "bob".into() }
        ]
    );
}

#[test]
fn get_user_data_many() {
    let s = fixture();
    let ids = (0..10000).collect::<Vec<_>>();
    assert_eq!(
        s.get_user_data(&ids),
        [
            UserData { id: 1, username: "alice".into() },
            UserData { id: 2, username: "bob".into() }
        ]
    );
}

#[test]
fn update_user_replaces_profile() {
    let mut s = fixture();
    s.update_user(&UserUpdateParams {
        id: 1,
        username: "alicia".into(),
        avatar_template: "/avatars/alicia/{size}.png".into(),
    });
    assert_eq!(
        s.get_user_data(&vec![1, 2]),
        [
            UserData { id: 1, username: "alicia".into() },
            UserData { id: 2, username: "bob".into() }
        ]
    );
}

#[test]
fn get_user_avatar_template_ok() {
    let s = fixture();
    assert_eq!(
        s.get_user_avatar_template("bob").unwrap(),
        "/avatars/bob/{size}.png".to_string()
    );
}

#[test]
fn get_user_avatar_template_unknown() {
    let s = fixture();
    assert_eq!(
        s.get_user_avatar_template("carol").unwrap_err(),
        DatabaseError::NotFound
    );
}

#[test]
fn verify_session_valid() {
    let mut s = fixture();
    s.create_session(1, "session-one", 1000);
    assert_eq!(s.verify_session("session-one", 999), Some(1));
}

#[test]
fn verify_session_expired() {
    let mut s = fixture();
    s.create_session(1, "session-one", 1000);
    assert_eq!(s.verify_session("session-one", 1000), None);
}

#[test]
fn verify_session_unknown() {
    let s = fixture();
    assert_eq!(s.verify_session("nope", 0), None);
}

#[test]
fn create_session_replaces_session() {
    let mut s = fixture();
    s.create_session(1, "session-one", 1000);
    s.create_session(2, "session-one", 2000);
    assert_eq!(s.verify_session("session-one", 1500), Some(2));
}

#[test]
fn delete_session_forgets() {
    let mut s = fixture();
    s.create_session(1, "session-one", 1000);
    s.delete_session("session-one");
    assert_eq!(s.verify_session("session-one", 0), None);
}

#[test]
fn delete_session_unknown_is_noop() {
    let mut s = fixture();
    s.create_session(1, "session-one", 1000);
    s.delete_session("other");
    assert_eq!(s.verify_session("session-one", 0), Some(1));
}
