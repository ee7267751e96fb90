use game_library::config::DiscourseUpdateConfig;
use game_library::discourse::{check_json_type, get_signature, DiscourseEventError};
use game_library::server::{real_addr, SpanMaker};

#[test]
fn check_json_type_ok() {
    assert_eq!(check_json_type(Some("application/json")), Ok(()));
}

#[test]
fn check_json_type_wrong_type() {
    assert_eq!(
        check_json_type(Some("text/html")),
        Err(DiscourseEventError::BadMimeType)
    );
}

#[test]
fn check_json_type_unparsable() {
    assert_eq!(
        check_json_type(Some("not a mime type")),
        Err(DiscourseEventError::BadMimeType)
    );
}

#[test]
fn check_json_type_missing() {
    assert_eq!(check_json_type(None), Err(DiscourseEventError::BadMimeType));
}

#[test]
fn get_signature_ok() {
    let value = b"sha256=00ff10".to_vec();
    assert_eq!(get_signature(Some(&value)).unwrap(), vec![0x00, 0xff, 0x10]);
}

#[test]
fn get_signature_mixed_case_hex() {
    let value = b"sha256=DeadBeef".to_vec();
    assert_eq!(
        get_signature(Some(&value)).unwrap(),
        vec![0xde, 0xad, 0xbe, 0xef]
    );
}

#[test]
fn get_signature_missing_header() {
    assert_eq!(
        get_signature(None).unwrap_err(),
        DiscourseEventError::Unauthorized
    );
}

#[test]
fn get_signature_wrong_prefix() {
    let value = b"md5=00ff10".to_vec();
    assert_eq!(
        get_signature(Some(&value)).unwrap_err(),
        DiscourseEventError::Unauthorized
    );
}

#[test]
fn get_signature_bad_hex() {
    let value = b"sha256=zz".to_vec();
    assert_eq!(
        get_signature(Some(&value)).unwrap_err(),
        DiscourseEventError::Unauthorized
    );
}

#[test]
fn get_signature_odd_length_hex() {
    let value = b"sha256=abc".to_vec();
    assert_eq!(
        get_signature(Some(&value)).unwrap_err(),
        DiscourseEventError::Unauthorized
    );
}

#[test]
fn real_addr_forwarded() {
    assert_eq!(
        real_addr(Some(Some("10.0.0.1".to_string())), Some("192.168.1.9".to_string())),
        "10.0.0.1"
    );
}

#[test]
fn real_addr_forwarded_unreadable() {
    assert_eq!(
        real_addr(Some(None), Some("192.168.1.9".to_string())),
        "<unknown>"
    );
}

#[test]
fn real_addr_peer() {
    assert_eq!(real_addr(None, Some("192.168.1.9".to_string())), "192.168.1.9");
}

#[test]
fn real_addr_unknown() {
    assert_eq!(real_addr(None, None), "<unknown>");
}

#[test]
fn span_maker_builder() {
    let m = SpanMaker::new().include_headers(true);
    let _ = m.clone();
    let _ = SpanMaker::default();
}

#[test]
fn discourse_update_config_default() {
    let c = DiscourseUpdateConfig::default();
    assert!(c.secret.is_empty());
}
