//! The anchors of HTML documents.
use vstd::prelude::*;
use vstd::string::*;
use crate::text;
use crate::text::{same_text, to_chars};

verus! {

/// A tag: its name, and the text of its attributes.
#[derive(Debug)]
pub struct HtmlTag {
    pub name: String,
    pub attributes: String,
}

/// A tag as a mathematical value.
pub struct TagView {
    pub name: Seq<char>,
    pub attributes: Seq<char>,
}

impl View for HtmlTag {
    type V = TagView;

    open spec fn view(&self) -> TagView {
        TagView { name: self.name@, attributes: self.attributes@ }
    }
}

/// An attribute of a tag.
#[derive(Debug)]
pub struct HtmlAttribute {
    pub name: String,
    pub value: String,
}

/// An attribute as a mathematical value.
pub struct AttributeView {
    pub name: Seq<char>,
    pub value: Seq<char>,
}

impl View for HtmlAttribute {
    type V = AttributeView;

    open spec fn view(&self) -> AttributeView {
        AttributeView { name: self.name@, value: self.value@ }
    }
}

/// The views of a list of tags.
pub open spec fn tag_views(tags: Seq<HtmlTag>) -> Seq<TagView> {
    Seq::new(tags.len(), |i: int| tags[i]@)
}

/// The views of a list of attributes.
pub open spec fn attribute_views(attributes: Seq<HtmlAttribute>) -> Seq<AttributeView> {
    Seq::new(attributes.len(), |i: int| attributes[i]@)
}

/// The tags that `htmlstream::tag_iter` finds in a document.
pub uninterp spec fn html_tags(buffer: Seq<char>) -> Seq<TagView>;

/// The attributes that `htmlstream::attr_iter` finds in the text of a tag.
pub uninterp spec fn html_attributes(attributes: Seq<char>) -> Seq<AttributeView>;

/// Collects the tags that `htmlstream::tag_iter`, an iterator, finds in a document.
/// The result is a function of the document.
#[verifier::external_body]
fn parse_tags(buffer: &str) -> (res: Vec<HtmlTag>)
    ensures
        tag_views(res@) == html_tags(buffer@),
{
    htmlstream::tag_iter(buffer)
        .map(|(_, tag)| HtmlTag { name: tag.name, attributes: tag.attributes })
        .collect()
}

/// Collects the attributes that `htmlstream::attr_iter`, an iterator, finds in the
/// text of a tag. The result is a function of the text. The iterator cuts the text of
/// a value behind its first byte if a quote opens later in it, and must not be given
/// a text in which that is within a character.
#[verifier::external_body]
fn parse_attributes(attributes: &str) -> (res: Vec<HtmlAttribute>)
    requires
        can_be_cut(attributes@),
    ensures
        attribute_views(res@) == html_attributes(attributes@),
{
    htmlstream::attr_iter(attributes)
        .map(|(_, attr)| HtmlAttribute { name: attr.name, value: attr.value })
        .collect()
}

/// Where in the text of attributes a character stands.
#[derive(Clone, Copy)]
pub enum Place {
    /// Between attributes.
    Between,
    /// In the name of an attribute.
    Name,
    /// In a value without quotes; `wide` if it began with a character of several bytes.
    Value { is_empty: bool, wide: bool },
    /// Within quotes; `wide` if the value began before them with a character of
    /// several bytes.
    Quotes { quote: char, wide: bool },
}

/// Where the next character stands, after `c` at `place`, behind the character `prev`.
/// Nowhere, if with `c` a value ends that is cut within a character.
pub open spec fn next_place(place: Place, prev: char, c: char) -> Option<Place> {
    match place {
        Place::Between => Some(
            if c <= ' ' {
                Place::Between
            } else {
                Place::Name
            },
        ),
        Place::Name => Some(
            if c == '=' {
                Place::Value { is_empty: true, wide: false }
            } else if c <= ' ' {
                Place::Between
            } else {
                Place::Name
            },
        ),
        Place::Value { is_empty, wide } => Some(
            if (c == '\'' || c == '"') && prev == '=' {
                Place::Quotes { quote: c, wide }
            } else if c <= ' ' {
                Place::Between
            } else {
                Place::Value {
                    is_empty: false,
                    wide: if is_empty {
                        c > '\u{7f}'
                    } else {
                        wide
                    },
                }
            },
        ),
        Place::Quotes { quote, wide } => if c != quote {
            Some(place)
        } else if wide {
            None
        } else {
            Some(Place::Between)
        },
    }
}

/// Whether no value in the rest of a text is cut within a character.
pub open spec fn rest_can_be_cut(rest: Seq<char>, place: Place, prev: char) -> bool
    decreases rest.len(),
{
    rest.len() > 0 ==> match next_place(place, prev, rest[0]) {
        Some(next) => rest_can_be_cut(rest.skip(1), next, rest[0]),
        None => false,
    }
}

/// Whether no value in the text of attributes is cut within a character: a value that
/// begins, without quotes, with a character outside ASCII must not go on to an `=`
/// and a text in quotes.
pub open spec fn can_be_cut(attributes: Seq<char>) -> bool {
    rest_can_be_cut(attributes, Place::Between, ' ')
}

/// Whether an attribute names an anchor: `id` in any tag, and `name` in the tag `a`.
pub open spec fn names_anchor(tag: Seq<char>, attribute: Seq<char>) -> bool {
    attribute == "id"@ || (tag == "a"@ && attribute == "name"@)
}

/// The anchors that the attributes of a tag name.
pub open spec fn anchors_in(tag: Seq<char>, attributes: Seq<AttributeView>) -> Seq<Seq<char>>
    decreases attributes.len(),
{
    if attributes.len() == 0 {
        seq![]
    } else {
        let front = anchors_in(tag, attributes.drop_last());
        if names_anchor(tag, attributes.last().name) {
            front.push(attributes.last().value)
        } else {
            front
        }
    }
}

/// The anchors that the tags of a document name.
pub open spec fn anchors_of(tags: Seq<TagView>) -> Seq<Seq<char>>
    decreases tags.len(),
{
    if tags.len() == 0 {
        seq![]
    } else {
        anchors_of(tags.drop_last()) + anchors_in(
            tags.last().name,
            html_attributes(tags.last().attributes),
        )
    }
}

/// Whether the attributes of all the tags of a document can be read.
pub open spec fn has_readable_tags(buffer: Seq<char>) -> bool {
    forall|i: int|
        0 <= i < html_tags(buffer).len() ==> can_be_cut((#[trigger] html_tags(buffer)[i]).attributes)
}

/// Whether the attribute `j` of a tag names the anchor `id`.
pub open spec fn attribute_names(
    tag: Seq<char>,
    attributes: Seq<AttributeView>,
    j: int,
    id: Seq<char>,
) -> bool {
    0 <= j < attributes.len() && names_anchor(tag, attributes[j].name) && attributes[j].value == id
}

/// Whether the tag `i` of a document names the anchor `id`.
pub open spec fn tag_names(tags: Seq<TagView>, i: int, id: Seq<char>) -> bool {
    0 <= i < tags.len() && exists|j: int| #[trigger]
        attribute_names(tags[i].name, html_attributes(tags[i].attributes), j, id)
}

/// The anchors in a tag are those that its attributes name.
proof fn lemma_anchors_in(tag: Seq<char>, attributes: Seq<AttributeView>, id: Seq<char>)
    ensures
        anchors_in(tag, attributes).contains(id) <==> exists|j: int| #[trigger]
            attribute_names(tag, attributes, j, id),
    decreases attributes.len(),
{
    if attributes.len() > 0 {
        let n = attributes.len() - 1;
        let front = attributes.drop_last();
        lemma_anchors_in(tag, front, id);
        let all = anchors_in(tag, attributes);
        let others = anchors_in(tag, front);
        if all.contains(id) {
            if others.contains(id) {
                let j = choose|j: int| #[trigger] attribute_names(tag, front, j, id);
                assert(attribute_names(tag, attributes, j, id));
            } else {
                let k = choose|k: int| 0 <= k < all.len() && all[k] == id;
                if k < others.len() {
                    assert(others[k] == id);
                }
                assert(attribute_names(tag, attributes, n, id));
            }
        }
        if exists|j: int| #[trigger] attribute_names(tag, attributes, j, id) {
            let j = choose|j: int| #[trigger] attribute_names(tag, attributes, j, id);
            if j < n {
                assert(attribute_names(tag, front, j, id));
                let k = choose|k: int| 0 <= k < others.len() && others[k] == id;
                assert(all[k] == id);
            } else {
                assert(all[others.len() as int] == id);
            }
        }
    }
}

/// The anchors of a document are those that the attributes of its tags name, and no
/// others.
pub proof fn anchors_are_those_named(tags: Seq<TagView>, id: Seq<char>)
    ensures
        anchors_of(tags).contains(id) <==> exists|i: int| #[trigger] tag_names(tags, i, id),
    decreases tags.len(),
{
    if tags.len() > 0 {
        let n = tags.len() - 1;
        let front = tags.drop_last();
        let last = anchors_in(tags[n].name, html_attributes(tags[n].attributes));
        let others = anchors_of(front);
        let all = anchors_of(tags);
        anchors_are_those_named(front, id);
        lemma_anchors_in(tags[n].name, html_attributes(tags[n].attributes), id);
        if all.contains(id) {
            let k = choose|k: int| 0 <= k < all.len() && all[k] == id;
            if k < others.len() {
                assert(others[k] == id);
                let i = choose|i: int| #[trigger] tag_names(front, i, id);
                assert(front[i] == tags[i]);
                assert(tag_names(tags, i, id));
            } else {
                assert(last[k - others.len()] == id);
                assert(tag_names(tags, n, id));
            }
        }
        if exists|i: int| #[trigger] tag_names(tags, i, id) {
            let i = choose|i: int| #[trigger] tag_names(tags, i, id);
            if i < n {
                assert(front[i] == tags[i]);
                assert(tag_names(front, i, id));
                let k = choose|k: int| 0 <= k < others.len() && others[k] == id;
                assert(all[k] == id);
            } else {
                let k = choose|k: int| 0 <= k < last.len() && last[k] == id;
                assert(all[others.len() + k] == id);
            }
        }
    }
}

/// The anchors in a tag are the values of the attributes at the positions `at`, which are
/// all those of `id`, and in the tag `a` also those of `name`, in order.
pub proof fn every_anchor_in_a_tag_is_found(
    tag: Seq<char>,
    attributes: Seq<AttributeView>,
) -> (at: Seq<int>)
    ensures
        at.len() == anchors_in(tag, attributes).len(),
        forall|i: int, j: int| 0 <= i < j < at.len() ==> at[i] < at[j],
        forall|k: int|
            0 <= k < attributes.len() && ((#[trigger] attributes[k]).name == "id"@ || (tag == "a"@
                && attributes[k].name == "name"@)) ==> exists|i: int|
                0 <= i < at.len() && at[i] == k,
        forall|i: int|
            0 <= i < at.len() ==> {
                &&& 0 <= #[trigger] at[i] < attributes.len()
                &&& attributes[at[i]].name == "id"@ || (tag == "a"@ && attributes[at[i]].name
                    == "name"@)
                &&& anchors_in(tag, attributes)[i] == attributes[at[i]].value
            },
    decreases attributes.len(),
{
    if attributes.len() == 0 {
        seq![]
    } else {
        let n = attributes.len() - 1;
        let front = attributes.drop_last();
        let found = every_anchor_in_a_tag_is_found(tag, front);
        let is_last = names_anchor(tag, attributes.last().name);
        let at = if is_last {
            found.push(n)
        } else {
            found
        };
        assert forall|i: int| 0 <= i < at.len() implies ({
            &&& 0 <= #[trigger] at[i] < attributes.len()
            &&& attributes[at[i]].name == "id"@ || (tag == "a"@ && attributes[at[i]].name
                == "name"@)
            &&& anchors_in(tag, attributes)[i] == attributes[at[i]].value
        }) by {
            if i < found.len() {
                assert(at[i] == found[i]);
                assert(front[found[i]] == attributes[found[i]]);
            }
        }
        assert forall|k: int|
            0 <= k < attributes.len() && ((#[trigger] attributes[k]).name == "id"@ || (tag == "a"@
                && attributes[k].name == "name"@)) implies exists|i: int|
            0 <= i < at.len() && at[i] == k by {
            if k < n {
                assert(front[k] == attributes[k]);
                let i = choose|i: int| 0 <= i < found.len() && found[i] == k;
                assert(at[i] == k);
            } else {
                assert(at[at.len() - 1] == n);
            }
        }
        assert forall|i: int, j: int| 0 <= i < j < at.len() implies at[i] < at[j] by {
            if j < found.len() {
                assert(found[i] < found[j]);
            } else {
                assert(found[i] < n);
            }
        }
        at
    }
}

/// The anchors of a document are those in its tags, one tag behind the other.
pub proof fn anchors_come_tag_by_tag(front: Seq<TagView>, tag: TagView)
    ensures
        anchors_of(Seq::<TagView>::empty()).len() == 0,
        anchors_of(front.push(tag)) == anchors_of(front) + anchors_in(
            tag.name,
            html_attributes(tag.attributes),
        ),
{
    assert(front.push(tag).drop_last() =~= front);
}

/// An anchor is named by `id` in any tag, and by `name` in the tag `a`, and by nothing else.
pub proof fn id_and_name_name_anchors(tags: Seq<TagView>, id: Seq<char>)
    ensures
        anchors_of(tags).contains(id) <==> exists|i: int, j: int|
            {
                &&& 0 <= i < tags.len()
                &&& 0 <= j < html_attributes(tags[i].attributes).len()
                &&& (#[trigger] html_attributes(tags[i].attributes)[j]).value == id
                &&& html_attributes(tags[i].attributes)[j].name == "id"@ || (tags[i].name == "a"@
                    && html_attributes(tags[i].attributes)[j].name == "name"@)
            },
{
    anchors_are_those_named(tags, id);
    if anchors_of(tags).contains(id) {
        let i = choose|i: int| #[trigger] tag_names(tags, i, id);
        let attributes = html_attributes(tags[i].attributes);
        let j = choose|j: int| #[trigger] attribute_names(tags[i].name, attributes, j, id);
        assert(html_attributes(tags[i].attributes)[j].value == id);
    }
    if exists|i: int, j: int|
        {
            &&& 0 <= i < tags.len()
            &&& 0 <= j < html_attributes(tags[i].attributes).len()
            &&& (#[trigger] html_attributes(tags[i].attributes)[j]).value == id
            &&& html_attributes(tags[i].attributes)[j].name == "id"@ || (tags[i].name == "a"@
                && html_attributes(tags[i].attributes)[j].name == "name"@)
        } {
        let (i, j) = choose|i: int, j: int|
            {
                &&& 0 <= i < tags.len()
                &&& 0 <= j < html_attributes(tags[i].attributes).len()
                &&& (#[trigger] html_attributes(tags[i].attributes)[j]).value == id
                &&& html_attributes(tags[i].attributes)[j].name == "id"@ || (tags[i].name == "a"@
                    && html_attributes(tags[i].attributes)[j].name == "name"@)
            };
        assert(attribute_names(tags[i].name, html_attributes(tags[i].attributes), j, id));
        assert(tag_names(tags, i, id));
    }
}

/// Tags and attributes are seen as they are.
pub proof fn tags_are_seen_as_they_are(tags: Seq<HtmlTag>, attributes: Seq<HtmlAttribute>)
    ensures
        tag_views(tags).len() == tags.len(),
        forall|i: int|
            0 <= i < tags.len() ==> (#[trigger] tag_views(tags)[i]).name == tags[i].name@
                && tag_views(tags)[i].attributes == tags[i].attributes@,
        attribute_views(attributes).len() == attributes.len(),
        forall|i: int|
            0 <= i < attributes.len() ==> (#[trigger] attribute_views(attributes)[i]).name
                == attributes[i].name@ && attribute_views(attributes)[i].value
                == attributes[i].value@,
{
}

/// Where no value can begin with a character outside ASCII, or no quotes open, nothing is
/// cut within a character.
proof fn lemma_can_be_cut(rest: Seq<char>, place: Place, prev: char, is_ascii: bool)
    requires
        is_ascii ==> forall|i: int| 0 <= i < rest.len() ==> #[trigger] rest[i] <= '\u{7f}',
        !is_ascii ==> forall|i: int|
            0 <= i < rest.len() ==> #[trigger] rest[i] != '\'' && rest[i] != '"',
        is_ascii ==> !(place matches Place::Value { wide: true, .. }),
        !(place matches Place::Quotes { wide: true, .. }),
        !is_ascii ==> !(place is Quotes),
    ensures
        rest_can_be_cut(rest, place, prev),
    decreases rest.len(),
{
    if rest.len() > 0 {
        assert(is_ascii ==> rest[0] <= '\u{7f}');
        assert(!is_ascii ==> rest[0] != '\'' && rest[0] != '"');
        let tail = rest.skip(1);
        assert forall|i: int| 0 <= i < tail.len() implies #[trigger] tail[i] == rest[i + 1] by {}
        lemma_can_be_cut(tail, next_place(place, prev, rest[0])->0, rest[0], is_ascii);
    }
}

/// Attributes can be read if they are in ASCII, and also if there are no quotes in them.
/// The attributes of a document can be read exactly when those of all its tags can.
pub proof fn plain_attributes_can_be_read(attributes: Seq<char>, buffer: Seq<char>)
    ensures
        (forall|i: int| 0 <= i < attributes.len() ==> #[trigger] attributes[i] <= '\u{7f}')
            ==> can_be_cut(attributes),
        (forall|i: int|
            0 <= i < attributes.len() ==> #[trigger] attributes[i] != '\'' && attributes[i] != '"')
            ==> can_be_cut(attributes),
        has_readable_tags(buffer) <==> forall|i: int|
            0 <= i < html_tags(buffer).len() ==> can_be_cut(
                (#[trigger] html_tags(buffer)[i]).attributes,
            ),
{
    if forall|i: int| 0 <= i < attributes.len() ==> #[trigger] attributes[i] <= '\u{7f}' {
        lemma_can_be_cut(attributes, Place::Between, ' ', true);
    }
    if forall|i: int|
        0 <= i < attributes.len() ==> #[trigger] attributes[i] != '\'' && attributes[i] != '"' {
        lemma_can_be_cut(attributes, Place::Between, ' ', false);
    }
}

/// Whether an attribute names an anchor.
fn is_anchor(tag: &str, attribute: &str) -> (res: bool)
    ensures
        res == names_anchor(tag@, attribute@),
{
    same_text(attribute, "id") || (same_text(tag, "a") && same_text(attribute, "name"))
}

/// Adds the anchors that the attributes of a tag name.
pub fn add_anchors(tag: &str, attributes: &Vec<HtmlAttribute>, ids: &mut Vec<String>)
    ensures
        text::views(final(ids)@) == text::views(old(ids)@) + anchors_in(
            tag@,
            attribute_views(attributes@),
        ),
{
    let ghost all = attribute_views(attributes@);
    let ghost before = text::views(ids@);
    let mut i: usize = 0;
    assert(text::views(ids@) =~= before + anchors_in(tag@, all.take(0)));
    while i < attributes.len()
        invariant
            i <= attributes@.len(),
            all == attribute_views(attributes@),
            text::views(ids@) == before + anchors_in(tag@, all.take(i as int)),
        decreases attributes@.len() - i,
    {
        let ghost last = ids@;
        assert(all.take(i + 1).drop_last() =~= all.take(i as int));
        assert(all.take(i + 1).last() == attributes@[i as int]@);
        if is_anchor(tag, &attributes[i].name) {
            ids.push(attributes[i].value.clone());
            assert(text::views(ids@) =~= text::views(last).push(attributes@[i as int].value@));
            assert(text::views(ids@) =~= before + anchors_in(tag@, all.take(i + 1)));
        }
        i = i + 1;
    }
    assert(all.take(attributes@.len() as int) =~= all);
}

/// The anchors of the document `buffer`: the values of `id` in any tag, and of `name`
/// in the tag `a`. The attributes of all tags must be readable.
pub fn get_html_ids(buffer: &str) -> (res: Vec<String>)
    requires
        has_readable_tags(buffer@),
    ensures
        text::views(res@) == anchors_of(html_tags(buffer@)),
{
    let tags = parse_tags(buffer);
    let ghost all = html_tags(buffer@);
    let mut ids: Vec<String> = Vec::new();
    let mut i: usize = 0;
    assert(text::views(ids@) =~= anchors_of(all.take(0)));
    while i < tags.len()
        invariant
            i <= tags@.len(),
            all == tag_views(tags@),
            all == html_tags(buffer@),
            has_readable_tags(buffer@),
            text::views(ids@) == anchors_of(all.take(i as int)),
        decreases tags@.len() - i,
    {
        assert(all[i as int] == tags@[i as int]@);
        let attributes = parse_attributes(&tags[i].attributes);
        add_anchors(&tags[i].name, &attributes, &mut ids);
        assert(all.take(i + 1).drop_last() =~= all.take(i as int));
        assert(all.take(i + 1).last() == all[i as int]);
        i = i + 1;
    }
    assert(all.take(tags@.len() as int) =~= all);
    ids
}

/// Where the next character stands, after `c` at `place`, behind the character `prev`.
fn step(place: Place, prev: char, c: char) -> (res: Option<Place>)
    ensures
        res == next_place(place, prev, c),
{
    match place {
        Place::Between => if c <= ' ' {
            Some(Place::Between)
        } else {
            Some(Place::Name)
        },
        Place::Name => if c == '=' {
            Some(Place::Value { is_empty: true, wide: false })
        } else if c <= ' ' {
            Some(Place::Between)
        } else {
            Some(Place::Name)
        },
        Place::Value { is_empty, wide } => if (c == '\'' || c == '"') && prev == '=' {
            Some(Place::Quotes { quote: c, wide })
        } else if c <= ' ' {
            Some(Place::Between)
        } else {
            let wide = if is_empty {
                c > '\u{7f}'
            } else {
                wide
            };
            Some(Place::Value { is_empty: false, wide })
        },
        Place::Quotes { quote, wide } => if c != quote {
            Some(place)
        } else if wide {
            None
        } else {
            Some(Place::Between)
        },
    }
}

/// Whether no value in the text of attributes is cut within a character.
fn check_attributes(attributes: &str) -> (res: bool)
    ensures
        res == can_be_cut(attributes@),
{
    let chars = to_chars(attributes);
    let mut place = Place::Between;
    let mut prev: char = ' ';
    let mut i: usize = 0;
    assert(attributes@.skip(0) =~= attributes@);
    while i < chars.len()
        invariant
            i <= chars@.len(),
            chars@ == attributes@,
            can_be_cut(attributes@) == rest_can_be_cut(attributes@.skip(i as int), place, prev),
        decreases chars@.len() - i,
    {
        let ghost rest = attributes@.skip(i as int);
        assert(rest[0] == chars@[i as int]);
        assert(rest.skip(1) =~= attributes@.skip(i + 1));
        match step(place, prev, chars[i]) {
            Some(next) => {
                place = next;
            },
            None => {
                return false;
            },
        }
        prev = chars[i];
        i = i + 1;
    }
    true
}

/// Whether the attributes of all the tags of the document `buffer` can be read.
pub fn has_readable_attributes(buffer: &str) -> (res: bool)
    ensures
        res == has_readable_tags(buffer@),
{
    let tags = parse_tags(buffer);
    let ghost all = html_tags(buffer@);
    let mut i: usize = 0;
    while i < tags.len()
        invariant
            i <= tags@.len(),
            all == tag_views(tags@),
            all == html_tags(buffer@),
            forall|j: int| 0 <= j < i ==> can_be_cut((#[trigger] all[j]).attributes),
        decreases tags@.len() - i,
    {
        if !check_attributes(&tags[i].attributes) {
            assert(!can_be_cut(all[i as int].attributes));
            return false;
        }
        assert(can_be_cut(all[i as int].attributes));
        i = i + 1;
    }
    true
}

/// The anchors of the document `buffer`, or `None` if the attributes of some tag
/// cannot be read.
pub fn try_get_html_ids(buffer: &str) -> (res: Option<Vec<String>>)
    ensures
        res is Some <==> has_readable_tags(buffer@),
        res is Some ==> text::views(res->0@) == anchors_of(html_tags(buffer@)),
{
    if has_readable_attributes(buffer) {
        Some(get_html_ids(buffer))
    } else {
        None
    }
}

} // verus!
