use linky::errors::{Error, ErrorKind, LinkError, LookupError, OtherError};
use linky::fetch::{
    fetched, first_step, next_step, response_step, try_next_step, Mime, Reply, ResponseHead, Step,
};
use linky::link::Link;
use linky::resolve::{resolve_fetched, resolve_link, TargetMap, Targets};
use linky::tag::Tag;
use linky::url::Url;
use linky::warning::print_warning;
use std::cell::Cell;
use std::rc::Rc;

struct Site {
    asked: Cell<usize>,
}

impl Targets for Site {
    fn fetch_targets(&self, link: &Link) -> Result<Vec<String>, (Tag, Rc<LinkError>)> {
        self.asked.set(self.asked.get() + 1);
        if link.text() == "a.md" || link.text() == "http://a/" {
            Ok(vec!["one".to_string(), "p-two".to_string()])
        } else {
            fetched(link, Err(LookupError::from_kind(ErrorKind::Io)))
        }
    }
}

fn path(text: &str) -> Link {
    Link::Path(text.to_string())
}

fn some(text: &str) -> Option<String> {
    Some(text.to_string())
}

#[test]
fn documents_are_fetched_once() {
    let site = Site { asked: Cell::new(0) };
    let mut targets = TargetMap::new();
    let (tag, err) = resolve_link(&site, &mut targets, path("a.md"), some("one"), &[]);
    assert_eq!(tag, Tag::ok());
    assert!(err.is_none());
    let (tag, err) = resolve_link(&site, &mut targets, path("a.md"), None, &[]);
    assert_eq!(tag, Tag::ok());
    assert!(err.is_none());
    let (tag, err) = resolve_link(&site, &mut targets, path("a.md"), some("two"), &["p-"]);
    assert_eq!(tag, Tag::from_error_kind(ErrorKind::Prefixed));
    assert_eq!(err.unwrap().link, path("a.md"));
    let (tag, _) = resolve_link(&site, &mut targets, path("a.md"), some("three"), &["p-"]);
    assert_eq!(tag, Tag::from_error_kind(ErrorKind::NoFragment));
    assert_eq!(site.asked.get(), 1);

    let url = Link::Url(Url::parse("http://a/").unwrap());
    let (tag, _) = resolve_link(&site, &mut targets, url.clone(), some("one"), &[]);
    assert_eq!(tag, Tag::ok());
    let (tag, _) = resolve_link(&site, &mut targets, path("http://a/"), None, &[]);
    assert_eq!(tag, Tag::ok());
    assert_eq!(site.asked.get(), 3);
    assert!(targets.get(&url).is_some());
    assert!(targets.get(&path("b.md")).is_none());
}

#[test]
fn failures_are_kept_and_shared() {
    let site = Site { asked: Cell::new(0) };
    let mut targets = TargetMap::new();
    let (tag, first) = resolve_link(&site, &mut targets, path("b.md"), None, &[]);
    assert_eq!(tag, Tag::from_error_kind(ErrorKind::Io));
    let (tag, second) = resolve_link(&site, &mut targets, path("b.md"), some("x"), &[]);
    assert_eq!(tag, Tag::from_error_kind(ErrorKind::Io));
    assert!(Rc::ptr_eq(&first.unwrap(), &second.unwrap()));
    let (tag, third) = resolve_link(&site, &mut targets, path("b.md"), None, &["p-"]);
    assert_eq!(tag, Tag::from_error_kind(ErrorKind::Io));
    assert!(third.is_some());
    assert_eq!(site.asked.get(), 1);
}

#[test]
fn resolutions_by_what_was_fetched() {
    let anchors = Ok(vec!["x".to_string()]);
    let (tag, err) = resolve_fetched(&anchors, path("a"), some("x"), &[]);
    assert_eq!(tag, Tag::ok());
    assert!(err.is_none());
    let (tag, err) = resolve_fetched(&anchors, path("a"), some("y"), &[]);
    assert_eq!(tag, Tag::from_error_kind(ErrorKind::NoFragment));
    let err = err.unwrap();
    assert_eq!(err.link, path("a"));
    match *err.cause {
        Error::Fragment(ref cause) => assert_eq!(cause.fragment, "y"),
        _ => panic!("unexpected cause"),
    }
}

#[test]
fn first_steps() {
    assert!(matches!(first_step(&path("a.md")), Step::ReadFile));
    let kind = |step: Step| match step {
        Step::Done(Err(err)) => err.kind,
        _ => panic!("unexpected step"),
    };
    assert_eq!(kind(first_step(&path("/a.md"))), ErrorKind::Absolute);
    let url = |text: &str| Link::Url(Url::parse(text).unwrap());
    assert!(matches!(first_step(&url("http://a/")), Step::Send));
    assert!(matches!(first_step(&url("https://a/")), Step::Send));
    assert_eq!(kind(first_step(&url("ftp://a/"))), ErrorKind::Protocol);
    assert_eq!(kind(first_step(&url("mailto:a@b.c"))), ErrorKind::Protocol);
}

#[test]
fn answers_of_servers() {
    let mime = |type_: &str, subtype: &str| {
        Some(Mime {
            type_: type_.to_string(),
            subtype: subtype.to_string(),
            text: format!("{}/{}; charset=utf-8", type_, subtype),
        })
    };
    let step = |status: u16, content_type: Option<Mime>| {
        response_step(&ResponseHead { status, content_type })
    };
    assert!(matches!(step(200, mime("text", "html")), Step::ReadBody));
    assert!(matches!(step(299, mime("text", "html")), Step::ReadBody));
    let failure = |step: Step| match step {
        Step::Done(Err(err)) => err,
        _ => panic!("unexpected step"),
    };
    assert_eq!(failure(step(199, mime("text", "html"))).kind, ErrorKind::HttpStatus(199));
    assert_eq!(failure(step(300, None)).kind, ErrorKind::HttpStatus(300));
    assert_eq!(failure(step(404, mime("text", "html"))).kind, ErrorKind::HttpStatus(404));
    assert_eq!(failure(step(200, None)).kind, ErrorKind::NoMime);
    for other in [mime("text", "plain"), mime("image", "html")] {
        let text = other.as_ref().unwrap().text.clone();
        let err = failure(step(200, other));
        assert_eq!(err.kind, ErrorKind::UnrecognizedMime);
        match *err.cause.unwrap() {
            Error::UnrecognizedMime(ref cause) => assert_eq!(cause.mime, text),
            _ => panic!("unexpected cause"),
        }
    }
}

#[test]
fn replies_lead_to_steps() {
    let anchors = |step: Step| match step {
        Step::Done(Ok(ids)) => ids,
        _ => panic!("unexpected step"),
    };
    let failure = |step: Step| match step {
        Step::Done(Err(err)) => match *err.cause.unwrap() {
            Error::Other(cause) => (err.kind, cause.message),
            _ => panic!("unexpected cause"),
        },
        _ => panic!("unexpected step"),
    };
    let ok = |text: &str| Ok(text.to_string());
    let other = |message: &str| OtherError::new(message.to_string(), None);
    let failed = || Err(other("broken"));
    assert_eq!(anchors(next_step(Reply::File(ok("# A b!\n\n# A b!\n")))), vec!["a b", "a b-1"]);
    assert_eq!(anchors(next_step(Reply::Body(ok("<p id=x><a name=y >")))), vec!["y"]);
    assert_eq!(anchors(next_step(Reply::Body(ok("<p id=\"x\">")))), vec!["x"]);
    assert_eq!(failure(next_step(Reply::File(failed()))), (ErrorKind::Io, "broken".to_string()));
    assert_eq!(failure(next_step(Reply::Body(Err(other("b"))))), (ErrorKind::Io, "b".to_string()));
    assert_eq!(
        failure(next_step(Reply::Response(Err(other("r"))))),
        (ErrorKind::Http, "r".to_string())
    );
    let chain = OtherError::new("r".to_string(), Some(other("s")));
    match next_step(Reply::Response(Err(chain))) {
        Step::Done(Err(err)) => assert_eq!(
            print_warning(&err),
            vec!["warn: request failed", "  caused by: r", "  caused by: s"]
        ),
        _ => panic!("unexpected step"),
    }
    let head = ResponseHead { status: 200, content_type: None };
    match next_step(Reply::Response(Ok(head))) {
        Step::Done(Err(err)) => assert_eq!(err.kind, ErrorKind::NoMime),
        _ => panic!("unexpected step"),
    }
    assert!(try_next_step(Reply::Body(ok("<p id=\u{e9}='x' >"))).is_none());
    assert_eq!(anchors(try_next_step(Reply::Body(ok("<p id=a >"))).unwrap()), vec!["a"]);
}

#[test]
fn failures_to_fetch_are_tagged() {
    assert_eq!(fetched(&path("a"), Ok(vec!["x".to_string()])).unwrap(), vec!["x"]);
    let result = Err(LookupError::from_kind(ErrorKind::Absolute));
    let (tag, err) = fetched(&path("/a"), result).unwrap_err();
    assert_eq!(tag, Tag::from_error_kind(ErrorKind::Absolute));
    assert_eq!(err.link, path("/a"));
    match *err.cause {
        Error::Lookup(ref cause) => assert_eq!(cause.kind, ErrorKind::Absolute),
        _ => panic!("unexpected cause"),
    }
}

#[test]
fn links_are_in_order_exactly_without_error() {
    let site = Site { asked: Cell::new(0) };
    let mut targets = TargetMap::new();
    for (link, fragment) in [
        (path("a.md"), some("one")),
        (path("a.md"), some("two")),
        (path("a.md"), None),
        (path("b.md"), None),
        (path("b.md"), some("one")),
    ] {
        let (tag, err) = resolve_link(&site, &mut targets, link.clone(), fragment, &["p-"]);
        assert_eq!(tag == Tag::ok(), err.is_none());
        if let Err((tag, _)) = targets.get(&link).unwrap() {
            assert_ne!(*tag, Tag::ok());
        }
    }
    assert_eq!(site.asked.get(), 2);
}

#[test]
fn media_types() {
    let mime = Mime::parse("TEXT/HTML; charset=UTF-8").unwrap();
    assert_eq!(mime.type_, "text");
    assert_eq!(mime.subtype, "html");
    assert_eq!(mime.text, "text/html; charset=utf-8");
    assert_eq!(Mime::parse("image/svg+xml").unwrap().subtype, "svg");
    assert_eq!(Mime::parse("*/*").unwrap().subtype, "*");
    for text in ["", "text", "/html", "text/html; x", "te xt/html"] {
        assert!(Mime::parse(text).is_none(), "{}", text);
    }
    let head = ResponseHead::new(200, Some("text/html"));
    assert_eq!(head.status, 200);
    assert!(matches!(response_step(&head), Step::ReadBody));
    for content_type in [None, Some("html")] {
        match response_step(&ResponseHead::new(204, content_type)) {
            Step::Done(Err(err)) => assert_eq!(err.kind, ErrorKind::NoMime),
            _ => panic!("unexpected step"),
        }
    }
}
