use linky::errors::{
    Error, ErrorKind, Failure, FragmentError, LinkError, LookupError, OtherError, ParseError,
    PrefixError, UnrecognizedMime,
};
use linky::link::Link;
use linky::tag::Tag;
use linky::warning::print_warning;

const KINDS: [(ErrorKind, &str); 11] = [
    (ErrorKind::Absolute, "ABSOLUTE"),
    (ErrorKind::Http, "HTTP"),
    (ErrorKind::HttpStatus(404), "HTTP_404"),
    (ErrorKind::HttpStatus(0), "HTTP_0"),
    (ErrorKind::HttpStatus(65535), "HTTP_65535"),
    (ErrorKind::Io, "IO"),
    (ErrorKind::NoFragment, "NO_FRAGMENT"),
    (ErrorKind::NoMime, "NO_MIME"),
    (ErrorKind::Prefixed, "PREFIXED"),
    (ErrorKind::Protocol, "PROTOCOL"),
    (ErrorKind::UnrecognizedMime, "UNRECOGNIZED_MIME"),
];

#[test]
fn tags_read_back() {
    assert_eq!(Tag::ok().text(), "OK");
    assert_eq!(Tag::from_str("OK"), Ok(Tag::ok()));
    for (kind, name) in KINDS {
        assert_eq!(kind.name(), name);
        assert_eq!(ErrorKind::from_str(name), Ok(kind));
        let tag = Tag::from_error_kind(kind);
        assert_eq!(tag.text(), name);
        assert_eq!(Tag::from_str(&tag.text()), Ok(tag));
        assert_eq!(Tag::from_str(&name.to_lowercase()), Ok(tag));
    }
}

#[test]
fn case_of_tags() {
    assert_eq!(Tag::from_str("ok"), Ok(Tag::ok()));
    assert_eq!(Tag::from_str("oK"), Ok(Tag::ok()));
    assert_eq!(Tag::from_str("No_Mime"), Ok(Tag::from_error_kind(ErrorKind::NoMime)));
    assert_eq!(Tag::from_str("no_m\u{131}me"), Ok(Tag::from_error_kind(ErrorKind::NoMime)));
    assert_eq!(Tag::from_upper("ok"), Err(ParseError));
}

#[test]
fn words_that_are_no_tags() {
    for word in ["", "OKAY", "HTTP_", "HTTP_x", "HTTP_+1", "HTTP_65536", "HTTPS", "NO", "\u{e9}"] {
        assert_eq!(Tag::from_str(word), Err(ParseError), "{:?}", word);
        assert_eq!(ErrorKind::from_str(word), Err(ParseError), "{:?}", word);
    }
}

#[test]
fn warnings_name_all_causes() {
    let mime = Error::UnrecognizedMime(UnrecognizedMime::new("image/png".to_string()));
    let lookup = LookupError::caused_by(ErrorKind::UnrecognizedMime, mime);
    let err = LinkError::new(Link::Path("a.md".to_string()), Error::Lookup(lookup));
    assert_eq!(
        print_warning(&err),
        vec![
            "warn: link a.md",
            "  caused by: media type not supported",
            "  caused by: media type image/png",
        ]
    );

    let lookup = LookupError::from_kind(ErrorKind::Prefixed);
    assert_eq!(lookup.kind(), ErrorKind::Prefixed);
    let prefix = PrefixError::new("p-".to_string(), Error::Lookup(lookup));
    let fragment = FragmentError::new("f".to_string(), Error::Prefix(prefix));
    let link = LinkError::new(Link::Path("a.md".to_string()), Error::Fragment(fragment));
    assert_eq!(
        print_warning(&Error::Link(link)),
        vec![
            "warn: link a.md",
            "  caused by: fragment f",
            "  caused by: prefix p-",
            "  caused by: no such fragment without prefix",
        ]
    );

    let other = |message: &str, cause| OtherError::new(message.to_string(), cause);
    assert_eq!(print_warning(&other("x", None)), vec!["warn: x"]);
    assert_eq!(other("x", None).message(), "x");
    let chain = other("request", Some(other("connection", Some(other("no route", None)))));
    let lookup = LookupError::caused_by(ErrorKind::Http, Error::Other(chain));
    assert_eq!(
        print_warning(&LinkError::new(Link::Path("b".to_string()), Error::Lookup(lookup))),
        vec![
            "warn: link b",
            "  caused by: request failed",
            "  caused by: request",
            "  caused by: connection",
            "  caused by: no route",
        ]
    );
}

#[test]
fn messages_by_kind() {
    let message = |kind: ErrorKind| LookupError::from_kind(kind).message();
    assert_eq!(message(ErrorKind::Absolute), "absolute path");
    assert_eq!(message(ErrorKind::Http), "request failed");
    assert_eq!(message(ErrorKind::HttpStatus(404)), "unexpected status 404");
    assert_eq!(message(ErrorKind::Io), "reading failed");
    assert_eq!(message(ErrorKind::NoFragment), "no such fragment");
    assert_eq!(message(ErrorKind::NoMime), "no media type");
    assert_eq!(message(ErrorKind::Protocol), "protocol not supported");
    assert_eq!(Error::Lookup(LookupError::from_kind(ErrorKind::Io)).message(), "reading failed");
}
