use linky::host::is_host_encodable;
use linky::url::{is_parsable, Url, UrlError};

#[test]
fn hosts_that_cannot_be_encoded() {
    let long = "a".repeat(4096);
    for text in [
        format!("http://{}\u{fff80}/", long),
        format!("http://{}%F3%BF%BE%80/", long),
        format!("HTTPS://x.{}\u{fff80}.y/", long),
        format!(" ht\ntp:{}\u{fff80}", long),
        format!("ws:\\\\user@{}\u{fff80}:80?x", long),
        format!("ftp://{}-xn--.\u{fff80}{}", long, long),
        format!("gopher://x\tn--{}", long),
        format!("wss:////XN--{}#", long),
        format!("file://{}%41/", long),
        format!("file:\\/user@{}\u{fff80}", long),
    ] {
        assert!(!is_host_encodable(&text), "{}", text);
        assert!(!is_parsable(&text));
        assert_eq!(Url::try_parse(&text), None);
    }
}

#[test]
fn hosts_that_can_be_encoded() {
    let long = "a".repeat(4096);
    for text in [
        format!("http://{}/", long),
        format!("http://a-{}.com/", long),
        format!("http://x/{}\u{fff80}", long),
        format!("http://x\\{}\u{fff80}", long),
        format!("http://x?{}%F3%BF%BE%80", long),
        format!("http://x#{}\u{fff80}", long),
        format!("http://{}\u{e9}@x/", long),
        format!("http://{}@\u{e9}:80/", long),
        format!("file:///{}\u{fff80}", long),
        format!("file:{}\u{fff80}", long),
        format!("mailto:{}\u{fff80}", long),
        format!("foo://{}\u{fff80}/", long),
    ] {
        assert!(is_host_encodable(&text), "{}", text);
        assert!(is_parsable(&text));
        assert!(Url::try_parse(&text).unwrap().is_ok(), "{}", text);
    }
}

#[test]
fn lengths_of_labels() {
    let http = |host: String| Url::try_parse(&format!("http://{}/", host));
    for (label, most) in [
        ("\u{e9}", 43690),
        ("\u{4e2d}", 8422),
        ("\u{1f600}", 2730),
        ("\u{ff41}", 481),
        ("\u{fdfa}", 214),
    ] {
        assert!(http(label.repeat(most)).is_some(), "{}", label);
        assert_eq!(http(label.repeat(most + 1)), None, "{}", label);
        let short = label.repeat(most);
        assert!(is_parsable(&format!("http://a.{}.{}.b/", short, short)));
        assert!(!is_parsable(&format!("http://a.{}{}.b/", short, short)));
    }
    for label in ["\u{e9}", "\u{4e2d}", "\u{1f600}", "\u{ff41}\u{e9}"] {
        assert!(http(label.repeat(240)).unwrap().is_ok(), "{}", label);
    }
    let encoded = |n: usize| format!("xn--{}", "a".repeat(n));
    assert_eq!(http(encoded(3851)), Some(Err(UrlError::IdnaError)));
    assert_eq!(http(encoded(3852)), None);
    assert!(http(format!("{}\u{e9}", "a".repeat(20000))).unwrap().is_ok());
    assert!(http(format!("{}%C3%A9", "a".repeat(3800))).unwrap().is_ok());
}

#[test]
fn texts_without_scheme_are_relative() {
    let long = "\u{e9}".repeat(4096);
    for text in [long.clone(), format!("/http://{}/", long), format!("//{}:x", long)] {
        assert!(is_parsable(&text));
        assert_eq!(Url::try_parse(&text), Some(Err(UrlError::RelativeUrlWithoutBase)));
    }
    assert_eq!(
        Url::try_parse(&format!("ht tp://{}/", long)),
        Some(Err(UrlError::RelativeUrlWithoutBase))
    );
}
