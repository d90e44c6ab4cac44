use linky::errors::{Error, ErrorKind};
use linky::fragment::{find_prefixed_fragment, lookup_fragment};
use linky::tag::Tag;

#[test]
fn check_fragment() {
    assert!(lookup_fragment(&[], "abc", &[]).is_err());
    assert!(lookup_fragment(&["abc"], "abc", &[]).is_ok());
}

#[test]
fn find_fragments() {
    assert_eq!(find_prefixed_fragment(&[], "123", &[]), None);
    assert_eq!(find_prefixed_fragment(&["abc-123"], "123", &[]), None);
    assert_eq!(find_prefixed_fragment(&["abc-123"], "123", &["def-"]), None);
    assert_eq!(
        find_prefixed_fragment(&["abc-123"], "123", &["abc-"]),
        Some("abc-".to_string())
    );
    assert_eq!(
        find_prefixed_fragment(&["def-123"], "123", &["abc-", "def-"]),
        Some("def-".to_string())
    );
}

#[test]
fn first_matching_prefix_wins() {
    assert_eq!(
        find_prefixed_fragment(&["b-1", "a-1"], "1", &["x-", "a-", "b-"]),
        Some("a-".to_string())
    );
}

#[test]
fn missing_fragment_is_reported() {
    let (tag, err) = lookup_fragment(&["x"], "abc", &["user-content-"]).unwrap_err();
    assert_eq!(tag, Tag::from_error_kind(ErrorKind::NoFragment));
    assert_eq!(err.fragment, "abc");
    match *err.cause {
        Error::Lookup(ref cause) => {
            assert_eq!(cause.kind, ErrorKind::NoFragment);
            assert!(cause.cause.is_none());
        }
        _ => panic!("unexpected cause"),
    }
}

#[test]
fn prefixed_fragment_is_reported_and_found_when_written_out() {
    let ids = ["user-content-abc"];
    let prefixes = ["user-content-"];
    let (tag, err) = lookup_fragment(&ids, "abc", &prefixes).unwrap_err();
    assert_eq!(tag, Tag::from_error_kind(ErrorKind::Prefixed));
    assert_eq!(err.fragment, "abc");
    match *err.cause {
        Error::Prefix(ref cause) => {
            assert_eq!(cause.prefix, "user-content-");
            match *cause.cause {
                Error::Lookup(ref inner) => assert_eq!(inner.kind, ErrorKind::Prefixed),
                _ => panic!("unexpected cause"),
            }
        }
        _ => panic!("unexpected cause"),
    }
    assert!(lookup_fragment(&ids, "user-content-abc", &[]).is_ok());
}
