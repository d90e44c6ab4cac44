use linky::record::Record;

fn fields(record: Record) -> (String, usize, String) {
    (record.path, record.linenum, record.link)
}

#[test]
fn records_are_read() {
    let record = Record::from_str("path/to/a.md:12: NO_FRAGMENT other.md#x").unwrap();
    assert_eq!(fields(record), ("path/to/a.md".to_string(), 12, "other.md#x".to_string()));
    let record = Record::from_str("a b:c:007:  ").unwrap();
    assert_eq!(fields(record), ("a b:c".to_string(), 7, "".to_string()));
    let record = Record::from_str(":0: OK x:1:").unwrap();
    assert_eq!(fields(record), ("".to_string(), 0, "x:1:".to_string()));
    let record = Record::from_str("a:1: b:2: c d").unwrap();
    assert_eq!(fields(record), ("a:1: b".to_string(), 2, "d".to_string()));
}

#[test]
fn other_lines_are_refused() {
    for line in [
        "", "a.md", "a.md:1:", "a.md:1: OK", "a.md:: OK x", "a.md:x: OK y", "a.md:+1: OK y",
        "a.md:1:OK x y", "a.md 1: OK x", "a\nb:1: OK x", "a:1: OK  x",
    ] {
        assert!(Record::from_str(line).is_err(), "{:?}", line);
        assert!(Record::try_from_str(line).unwrap().is_err(), "{:?}", line);
    }
}

#[test]
fn written_records_are_read_back() {
    for (path, linenum, link) in [("a/b.md", 1usize, "#x"), ("x y:z", 0, ""), ("", usize::MAX, "l:1:\nm")] {
        for tag in ["OK", "NO_FRAGMENT", "", "a:b:"] {
            let line = format!("{}:{}: {} {}", path, linenum, tag, link);
            let record = Record::try_from_str(&line).unwrap().unwrap();
            assert_eq!(fields(record), (path.to_string(), linenum, link.to_string()));
        }
    }
}

#[test]
fn line_numbers_must_fit() {
    assert!(Record::try_from_str("a:99999999999999999999999: OK x").is_none());
    assert!(Record::try_from_str("a:\u{663}: OK x").is_none());
    assert!(Record::try_from_str("a:3: OK x").is_some());
}

#[test]
fn captured_groups() {
    let groups = vec![
        None,
        Some("p".to_string()),
        Some("42".to_string()),
        Some("l".to_string()),
    ];
    let record = Record::from_captures(Some(groups)).unwrap();
    assert_eq!(fields(record), ("p".to_string(), 42, "l".to_string()));
    assert!(Record::from_captures(None).is_err());
}
