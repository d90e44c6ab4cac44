use linky::anchor::{anchors, get_path_ids, Headers, MdAnchorParser};
use linky::id::{GithubId, ToId};
use linky::markdown::{md_file_links, try_md_file_links, Event, MdLinkParser};
use linky::record::Record;

const EXAMPLE: &str = "# Heading
[absolute](https://github.com/mattias-p/linky/blob/master/example_site/path/to/other.md)
[absolute with fragment](https://github.com/mattias-p/linky/blob/master/example_site/path/to/other.md#existing)
[relative](other.md)
[broken](non-existing.md)
[relative with fragment](other.md#existing)
[broken fragment](other.md#non-existing)
[local fragment](#heading)
[broken local fragment](#non-existing)
";

#[test]
fn extract_links() {
    let mut parser = MdLinkParser::new(EXAMPLE);
    assert_eq!(
        parser.next(),
        Some((
            2,
            "https://github.com/mattias-p/linky/blob/master/example_site/path/to/other.md".to_string()
        ))
    );
    assert_eq!(
        parser.next(),
        Some((
            3,
            "https://github.com/mattias-p/linky/blob/master/example_site/path/to/other.md#existing"
                .to_string()
        ))
    );
    assert_eq!(parser.next(), Some((4, "other.md".to_string())));
    assert_eq!(parser.next(), Some((5, "non-existing.md".to_string())));
    assert_eq!(parser.next(), Some((6, "other.md#existing".to_string())));
    assert_eq!(parser.next(), Some((7, "other.md#non-existing".to_string())));
    assert_eq!(parser.next(), Some((8, "#heading".to_string())));
    assert_eq!(parser.next(), Some((9, "#non-existing".to_string())));
    assert_eq!(parser.next(), None);
    assert_eq!(parser.next(), None);
}

#[test]
fn records_are_added_behind_those_there() {
    let mut links = vec![Record { path: "x.md".to_string(), linenum: 7, link: "y".to_string() }];
    assert!(try_md_file_links("path/to/example.md", EXAMPLE, &mut links));
    assert_eq!(links.len(), 9);
    assert_eq!(links[0].path, "x.md");
    assert_eq!(links[0].linenum, 7);
    assert_eq!(links[1].path, "path/to/example.md");
    assert_eq!(links[1].linenum, 2);
    assert_eq!(links[8].link, "#non-existing");
    assert_eq!(links[8].linenum, 9);

    let mut again = Vec::new();
    md_file_links("path/to/example.md", EXAMPLE, &mut again);
    assert_eq!(again.len(), 8);
    assert_eq!(again[2].link, "other.md");
    assert_eq!(again[2].linenum, 4);
}

#[test]
fn several_links_on_a_line_and_reference_links() {
    let text = "one [a](x) two [b](y)\n\n* item [c][ref]\n\n[ref]: z\n";
    let mut parser = MdLinkParser::new(text);
    assert_eq!(parser.next(), Some((1, "x".to_string())));
    assert_eq!(parser.next(), Some((1, "y".to_string())));
    assert_eq!(parser.next(), Some((3, "z".to_string())));
    assert_eq!(parser.next(), None);
}

#[test]
fn line_breaks_are_counted_up_to_the_offset() {
    let events = vec![
        Event::Text("a".to_string()),
        Event::Link { url: "u".to_string(), offset: 2 },
        Event::Other,
        Event::Link { url: "v".to_string(), offset: 2 },
        Event::Link { url: "w".to_string(), offset: 6 },
    ];
    let mut parser = MdLinkParser::with_events("a\nb\n\nc", events);
    assert_eq!(parser.next(), Some((2, "u".to_string())));
    assert_eq!(parser.next(), Some((2, "v".to_string())));
    assert_eq!(parser.next(), Some((4, "w".to_string())));
    assert_eq!(parser.next(), None);

    let events = vec![
        Event::Link { url: "u".to_string(), offset: 2 },
        Event::Link { url: "v".to_string(), offset: 0 },
    ];
    let mut parser = MdLinkParser::with_events("a\nb", events);
    assert_eq!(parser.next(), Some((2, "u".to_string())));
}

#[test]
fn documents_without_links() {
    let mut parser = MdLinkParser::try_new("plain text").unwrap();
    assert_eq!(parser.next(), None);
    let mut links = Vec::new();
    assert!(try_md_file_links("a.md", "", &mut links));
    assert!(links.is_empty());
}

#[test]
fn github_identifiers() {
    assert_eq!(GithubId.to_id("Heading", 0), "heading");
    assert_eq!(GithubId.to_id("Hello, World!", 0), "hello world");
    assert_eq!(GithubId.to_id("a_b-c (d) 1.2", 0), "a_b-c d 12");
    assert_eq!(GithubId.to_id("\u{dc}ber \u{201e}uns\u{201c}", 0), "\u{dc}ber uns");
    assert_eq!(GithubId.to_id("Heading", 1), "heading-1");
    assert_eq!(GithubId.to_id("Heading", 12), "heading-12");
    assert_eq!(GithubId::number("Abc", 0), "abc");
    assert_eq!(GithubId::number("Abc", 10), "abc-10");
}

#[test]
fn headings_are_counted_by_text() {
    let mut headers = Headers::new();
    assert_eq!(headers.register("a".to_string()), 0);
    assert_eq!(headers.register("a".to_string()), 1);
    assert_eq!(headers.register("b".to_string()), 0);
    assert_eq!(headers.register("a".to_string()), 2);
}

#[test]
fn anchors_of_a_document() {
    let text = "# One\n\ntext\n\n## Two!\n\n# One\n\nOther\n=====\n\n# One\n";
    assert_eq!(
        get_path_ids(text, GithubId),
        vec!["one", "two", "one-1", "other", "one-2"]
    );
    let mut parser = MdAnchorParser::from_buffer(text, GithubId);
    assert_eq!(parser.next(), Some("one".to_string()));
    assert_eq!(parser.next(), Some("two".to_string()));
    assert_eq!(parser.next(), Some("one-1".to_string()));
    assert_eq!(parser.next(), Some("other".to_string()));
    assert_eq!(parser.next(), Some("one-2".to_string()));
    assert_eq!(parser.next(), None);
}

#[test]
fn only_the_first_text_of_a_heading_counts() {
    assert_eq!(get_path_ids("# One *two* three\n\ntext\n", GithubId), vec!["one "]);
    let events = vec![
        Event::Text("before".to_string()),
        Event::Header,
        Event::Other,
        Event::Text("A".to_string()),
        Event::Text("B".to_string()),
        Event::Header,
        Event::Header,
        Event::Text("A".to_string()),
    ];
    assert_eq!(anchors(events, GithubId), vec!["a", "a-1"]);
}
