use linky::html::{add_anchors, get_html_ids, try_get_html_ids, HtmlAttribute};

#[test]
fn anchors_in_html() {
    let html = "<h1 id=\"one\">One</h1><a name='two' href=\"#\">x</a><p name=\"no\">\
                <A name=\"no\"><br id=three /><a id=\"four\" name=\"five\"></a>text";
    let expected = vec!["one", "two", "three", "four", "five"];
    assert_eq!(get_html_ids(html), expected);
    assert_eq!(try_get_html_ids(html).unwrap(), expected);
    assert!(get_html_ids("").is_empty());
    assert!(get_html_ids("no tags").is_empty());
}

#[test]
fn anchors_outside_ascii() {
    assert_eq!(try_get_html_ids("<p id=\u{e9} >").unwrap(), vec!["\u{e9}"]);
    assert_eq!(try_get_html_ids("<p id=\"\u{e9}='x'\" >").unwrap(), vec!["\u{e9}='x'"]);
    assert_eq!(try_get_html_ids("<p id=a='x' >").unwrap(), vec!["='x"]);
}

#[test]
fn values_cut_within_a_character_are_refused() {
    assert!(try_get_html_ids("<p id=\u{e9}='x' >").is_none());
    assert!(try_get_html_ids("<p id=\u{e9}= 'x' >").is_some());
}

#[test]
fn attributes_that_name_anchors() {
    let attribute = |name: &str, value: &str| HtmlAttribute {
        name: name.to_string(),
        value: value.to_string(),
    };
    let attributes = vec![
        attribute("class", "a"),
        attribute("name", "b"),
        attribute("id", "c"),
        attribute("ID", "d"),
    ];
    let mut ids = vec!["z".to_string()];
    add_anchors("a", &attributes, &mut ids);
    assert_eq!(ids, vec!["z", "b", "c"]);
    add_anchors("p", &attributes, &mut ids);
    assert_eq!(ids, vec!["z", "b", "c", "c"]);
}
