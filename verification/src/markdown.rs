//! Markdown documents: their links, with the lines that they are on.
use vstd::prelude::*;
use vstd::string::*;
use vstd::slice::slice_subrange;
use vstd::utf8::*;
use crate::record;
use crate::record::Record;

verus! {

/// What comes up in a document, as far as links and headings go.
#[derive(Debug)]
pub enum Event {
    /// A heading begins.
    Header,
    /// A link begins; the parser has then read the document up to `offset`.
    Link { url: String, offset: usize },
    /// Text.
    Text(String),
    /// Anything else.
    Other,
}

/// An event as a mathematical value.
pub enum EventView {
    Header,
    Link { url: Seq<char>, offset: int },
    Text(Seq<char>),
    Other,
}

impl View for Event {
    type V = EventView;

    open spec fn view(&self) -> EventView {
        match self {
            Event::Header => EventView::Header,
            Event::Link { url, offset } => EventView::Link { url: url@, offset: *offset as int },
            Event::Text(text) => EventView::Text(text@),
            Event::Other => EventView::Other,
        }
    }
}

/// The views of a list of events.
pub open spec fn event_views(events: Seq<Event>) -> Seq<EventView> {
    Seq::new(events.len(), |i: int| events[i]@)
}

/// The events that `pulldown_cmark::Parser` finds in a document.
pub uninterp spec fn markdown_events(buffer: Seq<char>) -> Seq<EventView>;

/// Collects what `pulldown_cmark::Parser`, an iterator, finds in a document: the
/// starts of headings and links, and text. With the start of a link comes what
/// `get_offset` returns at that time. The result is a function of the document.
/// Nothing is stated about the order or the size of the offsets.
#[verifier::external_body]
pub(crate) fn parse_markdown(buffer: &str) -> (res: Vec<Event>)
    ensures
        event_views(res@) == markdown_events(buffer@),
{
    let mut parser = pulldown_cmark::Parser::new(buffer);
    let mut events = Vec::new();
    while let Some(event) = parser.next() {
        events.push(match event {
            pulldown_cmark::Event::Start(pulldown_cmark::Tag::Header(_)) => Event::Header,
            pulldown_cmark::Event::Start(pulldown_cmark::Tag::Link(url, _)) =>
                Event::Link { url: url.into_owned(), offset: parser.get_offset() },
            pulldown_cmark::Event::Text(text) => Event::Text(text.into_owned()),
            _ => Event::Other,
        });
    }
    events
}

/// How often `needle` occurs in `haystack`.
pub open spec fn byte_count(haystack: Seq<u8>, needle: u8) -> nat
    decreases haystack.len(),
{
    if haystack.len() == 0 {
        0
    } else {
        byte_count(haystack.drop_last(), needle) + if haystack.last() == needle {
            1nat
        } else {
            0nat
        }
    }
}

/// `bytecount::count` counts how often a byte occurs in a slice.
pub assume_specification[ bytecount::count ](haystack: &[u8], needle: u8) -> (res: usize)
    ensures
        res == byte_count(haystack@, needle),
;

/// Counting can be done part by part.
pub proof fn lemma_byte_count_concat(a: Seq<u8>, b: Seq<u8>, needle: u8)
    ensures
        byte_count(a + b, needle) == byte_count(a, needle) + byte_count(b, needle),
    decreases b.len(),
{
    if b.len() == 0 {
        assert(a + b =~= a);
    } else {
        assert((a + b).drop_last() =~= a + b.drop_last());
        lemma_byte_count_concat(a, b.drop_last(), needle);
    }
}

/// A byte occurs at most as often as there are bytes.
pub proof fn lemma_byte_count_bound(s: Seq<u8>, needle: u8)
    ensures
        byte_count(s, needle) <= s.len(),
    decreases s.len(),
{
    if s.len() > 0 {
        lemma_byte_count_bound(s.drop_last(), needle);
    }
}

/// The line that a byte offset is on, counted from one.
pub open spec fn line_at(bytes: Seq<u8>, offset: int) -> nat {
    1 + byte_count(bytes.take(offset), 10)
}

/// Later offsets are on the same line or on later ones.
pub proof fn lines_do_not_go_back(bytes: Seq<u8>, a: int, b: int)
    requires
        0 <= a <= b <= bytes.len(),
    ensures
        line_at(bytes, a) <= line_at(bytes, b),
{
    assert(bytes.take(b) =~= bytes.take(a) + bytes.subrange(a, b));
    lemma_byte_count_concat(bytes.take(a), bytes.subrange(a, b), 10);
}

/// The number of times that a byte occurs is the number of its copies.
pub proof fn byte_count_counts_copies(s: Seq<u8>, needle: u8)
    ensures
        byte_count(s, needle) == s.to_multiset().count(needle),
    decreases s.len(),
{
    broadcast use vstd::seq_lib::group_to_multiset_ensures;

    if s.len() > 0 {
        byte_count_counts_copies(s.drop_last(), needle);
        assert(s =~= s.drop_last().push(s.last()));
    } else {
        assert(!s.contains(needle));
    }
}

/// A line is numbered by the line breaks before it: the first is 1, and each line break
/// begins another.
pub proof fn lines_are_counted_by_breaks(bytes: Seq<u8>, offset: int)
    requires
        0 <= offset <= bytes.len(),
    ensures
        line_at(bytes, offset) == 1 + bytes.take(offset).to_multiset().count(10u8),
{
    byte_count_counts_copies(bytes.take(offset), 10);
}

/// The events are seen as they are: none is left out, and none is taken for another.
pub proof fn events_are_seen_as_they_are(events: Seq<Event>)
    ensures
        event_views(events).len() == events.len(),
        forall|i: int|
            0 <= i < events.len() ==> #[trigger] event_views(events)[i] == match events[i] {
                Event::Header => EventView::Header,
                Event::Link { url, offset } => EventView::Link { url: url@, offset: offset as int },
                Event::Text(text) => EventView::Text(text@),
                Event::Other => EventView::Other,
            },
{
}

/// The links among the events: their lines and their targets.
pub open spec fn links_of(events: Seq<EventView>, bytes: Seq<u8>) -> Seq<(nat, Seq<char>)>
    decreases events.len(),
{
    if events.len() == 0 {
        seq![]
    } else {
        match events[0] {
            EventView::Link { url, offset } => seq![(line_at(bytes, offset), url)] + links_of(
                events.skip(1),
                bytes,
            ),
            _ => links_of(events.skip(1), bytes),
        }
    }
}

/// Every link of a document is found, whatever its target, and nothing else: the links
/// are those of the events at the positions `at`, which are all the positions of links,
/// in order. Each has the target of its event, and the number of the line that the
/// offset of the event is on.
pub proof fn every_link_is_found(events: Seq<EventView>, bytes: Seq<u8>) -> (at: Seq<int>)
    requires
        forall|k: int|
            0 <= k < events.len() ==> (#[trigger] events[k] matches EventView::Link { offset, .. }
                ==> 0 <= offset <= bytes.len()),
    ensures
        at.len() == links_of(events, bytes).len(),
        forall|i: int, j: int| 0 <= i < j < at.len() ==> at[i] < at[j],
        forall|k: int|
            0 <= k < events.len() && (#[trigger] events[k]) is Link ==> exists|i: int|
                0 <= i < at.len() && at[i] == k,
        forall|i: int|
            0 <= i < at.len() ==> {
                &&& 0 <= #[trigger] at[i] < events.len()
                &&& events[at[i]] is Link
                &&& links_of(events, bytes)[i].1 == events[at[i]]->url
                &&& links_of(events, bytes)[i].0 == 1 + bytes.take(
                    events[at[i]]->offset,
                ).to_multiset().count(10u8)
            },
    decreases events.len(),
{
    if events.len() == 0 {
        seq![]
    } else {
        let rest = events.skip(1);
        assert forall|k: int| 0 <= k < rest.len() implies (#[trigger] rest[k] matches
            EventView::Link { offset, .. } ==> 0 <= offset <= bytes.len()) by {
            assert(rest[k] == events[k + 1]);
        }
        let found = every_link_is_found(rest, bytes);
        let moved = Seq::new(found.len(), |i: int| found[i] + 1);
        let links = links_of(events, bytes);
        let others = links_of(rest, bytes);
        let first = if events[0] is Link {
            1int
        } else {
            0int
        };
        let at = if events[0] is Link {
            seq![0int] + moved
        } else {
            moved
        };
        if events[0] is Link {
            lines_are_counted_by_breaks(bytes, events[0]->offset);
        }
        assert forall|i: int| 0 <= i < at.len() implies ({
            &&& 0 <= #[trigger] at[i] < events.len()
            &&& events[at[i]] is Link
            &&& links[i].1 == events[at[i]]->url
            &&& links[i].0 == 1 + bytes.take(events[at[i]]->offset).to_multiset().count(10u8)
        }) by {
            if i >= first {
                assert(at[i] == found[i - first] + 1);
                assert(rest[found[i - first]] == events[at[i]]);
                assert(links[i] == others[i - first]);
            }
        }
        assert forall|k: int| 0 <= k < events.len() && (#[trigger] events[k]) is Link implies exists|
            i: int,
        |
            0 <= i < at.len() && at[i] == k by {
            if k == 0 {
                assert(at[0] == 0);
            } else {
                assert(rest[k - 1] == events[k]);
                let i = choose|i: int| 0 <= i < found.len() && found[i] == k - 1;
                assert(at[i + first] == k);
            }
        }
        assert forall|i: int, j: int| 0 <= i < j < at.len() implies at[i] < at[j] by {
            if i >= first {
                assert(found[i - first] < found[j - first]);
            } else {
                assert(found[j - first] >= 0);
            }
        }
        at
    }
}

/// Whether the offsets of the links do not go back behind `from`, and do not exceed `len`.
pub open spec fn in_order(events: Seq<EventView>, from: int, len: int) -> bool
    decreases events.len(),
{
    if events.len() == 0 {
        from <= len
    } else {
        match events[0] {
            EventView::Link { offset, .. } => from <= offset && in_order(
                events.skip(1),
                offset,
                len,
            ),
            _ => in_order(events.skip(1), from, len),
        }
    }
}

/// The offsets of the links are in order exactly when no offset is before `from`, none
/// is behind `len`, and none is before that of an earlier link.
pub proof fn in_order_exactly_when_sorted(events: Seq<EventView>, from: int, len: int)
    ensures
        in_order(events, from, len) <==> {
            &&& from <= len
            &&& forall|k: int|
                0 <= k < events.len() && (#[trigger] events[k]) is Link ==> from
                    <= events[k]->offset <= len
            &&& forall|k: int, m: int|
                0 <= k <= m < events.len() && (#[trigger] events[k]) is Link && (
                #[trigger] events[m]) is Link ==> events[k]->offset <= events[m]->offset
        },
    decreases events.len(),
{
    if events.len() > 0 {
        let rest = events.skip(1);
        let next = if events[0] is Link {
            events[0]->offset
        } else {
            from
        };
        in_order_exactly_when_sorted(rest, next, len);
        if in_order(events, from, len) {
            assert forall|k: int| 0 <= k < events.len() && (#[trigger] events[k]) is Link implies from
                <= events[k]->offset <= len by {
                if k > 0 {
                    assert(rest[k - 1] == events[k]);
                }
            }
            assert forall|k: int, m: int|
                0 <= k <= m < events.len() && (#[trigger] events[k]) is Link && (
                #[trigger] events[m]) is Link implies events[k]->offset <= events[m]->offset by {
                if m > 0 {
                    assert(rest[m - 1] == events[m]);
                    if k > 0 {
                        assert(rest[k - 1] == events[k]);
                    }
                }
            }
        }
        if from <= len && (forall|k: int|
            0 <= k < events.len() && (#[trigger] events[k]) is Link ==> from <= events[k]->offset
                <= len) && (forall|k: int, m: int|
            0 <= k <= m < events.len() && (#[trigger] events[k]) is Link && (
            #[trigger] events[m]) is Link ==> events[k]->offset <= events[m]->offset) {
            assert forall|k: int| 0 <= k < rest.len() && (#[trigger] rest[k]) is Link implies next
                <= rest[k]->offset <= len by {
                assert(rest[k] == events[k + 1]);
                assert(events[0] is Link ==> events[0]->offset <= events[k + 1]->offset);
            }
            assert forall|k: int, m: int|
                0 <= k <= m < rest.len() && (#[trigger] rest[k]) is Link && (
                #[trigger] rest[m]) is Link implies rest[k]->offset <= rest[m]->offset by {
                assert(rest[k] == events[k + 1] && rest[m] == events[m + 1]);
            }
            assert(in_order(rest, next, len));
        }
    }
}

/// The offset of the first link among the events.
pub open spec fn first_offset(events: Seq<EventView>) -> Option<int>
    decreases events.len(),
{
    if events.len() == 0 {
        None
    } else {
        match events[0] {
            EventView::Link { offset, .. } => Some(offset),
            _ => first_offset(events.skip(1)),
        }
    }
}

/// Whether the offset of the first link, if there is one, does not go back behind `from`,
/// and does not exceed `len`.
pub open spec fn is_next_in_order(events: Seq<EventView>, from: int, len: int) -> bool {
    first_offset(events) matches Some(offset) ==> from <= offset <= len
}

/// The first offset is that of a link before which there is none; without it there is no
/// link at all. It is in order exactly when it is neither before `from` nor behind `len`.
pub proof fn first_offset_is_that_of_first_link(events: Seq<EventView>, from: int, len: int)
    ensures
        match first_offset(events) {
            Some(offset) => exists|k: int|
                {
                    &&& 0 <= k < events.len()
                    &&& (#[trigger] events[k]) is Link
                    &&& events[k]->offset == offset
                    &&& forall|j: int| 0 <= j < k ==> !((#[trigger] events[j]) is Link)
                },
            None => forall|j: int| 0 <= j < events.len() ==> !((#[trigger] events[j]) is Link),
        },
        is_next_in_order(events, from, len) <==> (first_offset(events) is None || from
            <= first_offset(events)->0 <= len),
    decreases events.len(),
{
    if events.len() > 0 && !(events[0] is Link) {
        let rest = events.skip(1);
        first_offset_is_that_of_first_link(rest, from, len);
        assert forall|k: int| 0 <= k < rest.len() implies #[trigger] rest[k] == events[k + 1] by {}
        if first_offset(events) is Some {
            let k = choose|k: int|
                {
                    &&& 0 <= k < rest.len()
                    &&& (#[trigger] rest[k]) is Link
                    &&& rest[k]->offset == first_offset(rest)->0
                    &&& forall|j: int| 0 <= j < k ==> !((#[trigger] rest[j]) is Link)
                };
            assert(events[k + 1] is Link);
            assert forall|j: int| 0 <= j < k + 1 implies !((#[trigger] events[j]) is Link) by {
                if j > 0 {
                    assert(rest[j - 1] == events[j]);
                }
            }
        } else {
            assert forall|j: int| 0 <= j < events.len() implies !((#[trigger] events[j]) is Link) by {
                if j > 0 {
                    assert(rest[j - 1] == events[j]);
                }
            }
        }
    } else if events.len() > 0 {
        assert(events[0] is Link);
    }
}

/// Offsets in order begin and end within the document, and the first one is in order.
pub proof fn lemma_in_order(events: Seq<EventView>, from: int, len: int)
    requires
        in_order(events, from, len),
    ensures
        from <= len,
        is_next_in_order(events, from, len),
    decreases events.len(),
{
    if events.len() > 0 {
        match events[0] {
            EventView::Link { offset, .. } => lemma_in_order(events.skip(1), offset, len),
            _ => lemma_in_order(events.skip(1), from, len),
        }
    }
}

/// The links of a document come in the order of their lines, and a line number is
/// never more than one more than the number of line breaks.
pub proof fn links_come_in_order(events: Seq<EventView>, bytes: Seq<u8>, from: int)
    requires
        0 <= from,
        in_order(events, from, bytes.len() as int),
    ensures
        forall|i: int, j: int|
            #![trigger links_of(events, bytes)[i], links_of(events, bytes)[j]]
            0 <= i <= j < links_of(events, bytes).len() ==> links_of(events, bytes)[i].0
                <= links_of(events, bytes)[j].0,
        forall|i: int|
            0 <= i < links_of(events, bytes).len() ==> line_at(bytes, from) <= (
            #[trigger] links_of(events, bytes)[i]).0 <= line_at(bytes, bytes.len() as int),
    decreases events.len(),
{
    if events.len() > 0 {
        let rest = events.skip(1);
        match events[0] {
            EventView::Link { url, offset } => {
                lemma_in_order(rest, offset, bytes.len() as int);
                links_come_in_order(rest, bytes, offset);
                lines_do_not_go_back(bytes, from, offset);
                lines_do_not_go_back(bytes, offset, bytes.len() as int);
                let all = links_of(events, bytes);
                let others = links_of(rest, bytes);
                assert(all == seq![(line_at(bytes, offset), url)] + others);
                assert forall|i: int| 0 <= i < all.len() implies line_at(bytes, from) <= (
                #[trigger] all[i]).0 <= line_at(bytes, bytes.len() as int) by {
                    if i > 0 {
                        assert(all[i] == others[i - 1]);
                    }
                }
                assert forall|i: int, j: int|
                    #![trigger all[i], all[j]]
                    0 <= i <= j < all.len() implies all[i].0 <= all[j].0 by {
                    if j > 0 {
                        assert(all[j] == others[j - 1]);
                        if i > 0 {
                            assert(all[i] == others[i - 1]);
                        }
                    }
                }
            },
            _ => {
                links_come_in_order(rest, bytes, from);
                assert(links_of(events, bytes) == links_of(rest, bytes));
            },
        }
    }
}

/// Finds the links of a document one after the other.
pub struct MdLinkParser<'a> {
    buffer: &'a str,
    events: Vec<Event>,
    pos: usize,
    linenum: usize,
    oldoffs: usize,
}

impl<'a> MdLinkParser<'a> {
    /// The document.
    pub closed spec fn bytes(self) -> Seq<u8> {
        encode_utf8(self.buffer@)
    }

    /// The events that are still to come.
    pub closed spec fn pending(self) -> Seq<EventView> {
        event_views(self.events@).skip(self.pos as int)
    }

    /// The offset of the link that was found last.
    pub closed spec fn offset(self) -> int {
        self.oldoffs as int
    }

    /// The lines have been counted up to the last link, which is in the document, and the
    /// number of a line behind the last byte fits.
    pub closed spec fn wf(self) -> bool {
        &&& self.pos <= self.events@.len()
        &&& self.linenum == line_at(self.bytes(), self.oldoffs as int)
        &&& self.bytes().len() < usize::MAX
        &&& self.oldoffs <= self.bytes().len()
    }

    /// A parser for the events of a document.
    pub fn with_events(buffer: &'a str, events: Vec<Event>) -> (res: MdLinkParser<'a>)
        ensures
            res.bytes() == encode_utf8(buffer@),
            res.pending() == event_views(events@),
            res.offset() == 0,
            res.wf() <==> encode_utf8(buffer@).len() < usize::MAX,
    {
        let res = MdLinkParser { buffer, events, pos: 0, linenum: 1, oldoffs: 0 };
        assert(event_views(events@).skip(0) =~= event_views(events@));
        assert(line_at(res.bytes(), 0) == 1) by {
            assert(res.bytes().take(0).len() == 0);
        }
        res
    }

    /// A parser for a document.
    pub fn new(buffer: &'a str) -> (res: MdLinkParser<'a>)
        ensures
            res.bytes() == encode_utf8(buffer@),
            res.pending() == markdown_events(buffer@),
            res.offset() == 0,
            res.wf() <==> encode_utf8(buffer@).len() < usize::MAX,
    {
        MdLinkParser::with_events(buffer, parse_markdown(buffer))
    }

    /// A parser for a document, if its links are reported in order.
    pub fn try_new(buffer: &'a str) -> (res: Option<MdLinkParser<'a>>)
        ensures
            res is Some <==> has_ordered_links(buffer@),
            res is Some ==> {
                &&& res->0.wf()
                &&& res->0.bytes() == encode_utf8(buffer@)
                &&& res->0.pending() == markdown_events(buffer@)
                &&& res->0.offset() == 0
            },
    {
        let len = buffer.as_bytes().len();
        let events = parse_markdown(buffer);
        if len < usize::MAX && check_order(&events, len) {
            Some(MdLinkParser::with_events(buffer, events))
        } else {
            None
        }
    }

    /// The next link, with the line that it is on. It must not come before the last one.
    pub fn next(&mut self) -> (res: Option<(usize, String)>)
        requires
            old(self).wf(),
            is_next_in_order(
                old(self).pending(),
                old(self).offset(),
                old(self).bytes().len() as int,
            ),
        ensures
            final(self).wf(),
            final(self).bytes() == old(self).bytes(),
            first_offset(old(self).pending()) == match res {
                Some(_) => Some(final(self).offset()),
                None => None,
            },
            res is None ==> final(self).offset() == old(self).offset(),
            in_order(old(self).pending(), old(self).offset(), old(self).bytes().len() as int)
                ==> in_order(
                final(self).pending(),
                final(self).offset(),
                final(self).bytes().len() as int,
            ),
            match res {
                Some((linenum, url)) => {
                    &&& links_of(old(self).pending(), old(self).bytes()) == seq![
                        (linenum as nat, url@),
                    ] + links_of(final(self).pending(), old(self).bytes())
                    &&& final(self).pending().len() < old(self).pending().len()
                },
                None => links_of(old(self).pending(), old(self).bytes()).len() == 0
                    && final(self).pending().len() == 0,
            },
    {
        let ghost links = links_of(self.pending(), self.bytes());
        let ghost bytes = self.bytes();
        let ghost first = first_offset(self.pending());
        let ghost ordered = in_order(self.pending(), self.offset(), bytes.len() as int);
        while self.pos < self.events.len()
            invariant
                self.wf(),
                self.bytes() == bytes,
                self.offset() == old(self).offset(),
                bytes == old(self).bytes(),
                first == first_offset(old(self).pending()),
                first_offset(self.pending()) == first,
                first matches Some(offset) ==> self.offset() <= offset <= bytes.len(),
                ordered == in_order(old(self).pending(), self.offset(), bytes.len() as int),
                in_order(self.pending(), self.offset(), bytes.len() as int) == ordered,
                links == links_of(old(self).pending(), bytes),
                links_of(self.pending(), bytes) == links,
                self.pending().len() <= old(self).pending().len(),
            decreases self.events@.len() - self.pos,
        {
            let ghost pending = self.pending();
            let ghost event = self.events@[self.pos as int]@;
            let pos = self.pos;
            assert(pending[0] == event);
            assert(pending.skip(1) =~= event_views(self.events@).skip(pos + 1));
            if let Event::Link { url, offset } = &self.events[pos] {
                let url = url.clone();
                let offset = *offset;
                proof {
                    let skipped = bytes.subrange(self.oldoffs as int, offset as int);
                    assert(bytes.take(offset as int) =~= bytes.take(self.oldoffs as int) + skipped);
                    lemma_byte_count_concat(bytes.take(self.oldoffs as int), skipped, 10);
                    lemma_byte_count_bound(bytes.take(offset as int), 10);
                }
                let skipped = slice_subrange(self.buffer.as_bytes(), self.oldoffs, offset);
                self.linenum = self.linenum + bytecount::count(skipped, 10);
                self.oldoffs = offset;
                self.pos = pos + 1;
                return Some((self.linenum, url));
            }
            self.pos = pos + 1;
        }
        None
    }
}

/// The views of a list of records.
pub open spec fn record_views(records: Seq<Record>) -> Seq<record::RecordView> {
    Seq::new(records.len(), |i: int| records[i]@)
}

/// The records of links that were found in the document at `path`.
pub open spec fn records_of(path: Seq<char>, links: Seq<(nat, Seq<char>)>) -> Seq<
    record::RecordView,
> {
    links.map_values(
        |link: (nat, Seq<char>)|
            record::RecordView { path, linenum: link.0, link: link.1 },
    )
}

/// Links are recorded one for one: with the given path, and with their own line and
/// target.
pub proof fn links_are_recorded_one_for_one(path: Seq<char>, links: Seq<(nat, Seq<char>)>)
    ensures
        records_of(path, links).len() == links.len(),
        forall|i: int|
            0 <= i < links.len() ==> {
                &&& (#[trigger] records_of(path, links)[i]).path == path
                &&& records_of(path, links)[i].linenum == links[i].0
                &&& records_of(path, links)[i].link == links[i].1
            },
{
}

/// Records are seen as they are.
pub proof fn records_are_seen_as_they_are(records: Seq<Record>)
    ensures
        record_views(records).len() == records.len(),
        forall|i: int|
            0 <= i < records.len() ==> {
                &&& (#[trigger] record_views(records)[i]).path == records[i].path@
                &&& record_views(records)[i].linenum == records[i].linenum
                &&& record_views(records)[i].link == records[i].link@
            },
{
}

/// Offsets in order are offsets in the document.
proof fn lemma_offsets_in_document(events: Seq<EventView>, from: int, len: int)
    requires
        0 <= from,
        in_order(events, from, len),
    ensures
        forall|k: int|
            0 <= k < events.len() ==> (#[trigger] events[k] matches EventView::Link { offset, .. }
                ==> 0 <= offset <= len),
    decreases events.len(),
{
    if events.len() > 0 {
        let rest = events.skip(1);
        let next = match events[0] {
            EventView::Link { offset, .. } => offset,
            _ => from,
        };
        lemma_in_order(rest, next, len);
        lemma_offsets_in_document(rest, next, len);
        assert forall|k: int| 0 <= k < events.len() implies (#[trigger] events[k] matches
            EventView::Link { offset, .. } ==> 0 <= offset <= len) by {
            if k > 0 {
                assert(rest[k - 1] == events[k]);
            }
        }
    }
}

/// As many records are made of a document as it has links, and they are those of the
/// events at the positions `at`, which are all the positions of links, in order: each
/// has the path of the document, the target of its event, and the number of the line that
/// the offset of the event is on.
pub proof fn every_link_is_recorded(
    path: Seq<char>,
    events: Seq<EventView>,
    bytes: Seq<u8>,
) -> (at: Seq<int>)
    requires
        in_order(events, 0, bytes.len() as int),
    ensures
        at.len() == records_of(path, links_of(events, bytes)).len(),
        forall|i: int, j: int| 0 <= i < j < at.len() ==> at[i] < at[j],
        forall|k: int|
            0 <= k < events.len() && (#[trigger] events[k]) is Link ==> exists|i: int|
                0 <= i < at.len() && at[i] == k,
        forall|i: int|
            0 <= i < at.len() ==> {
                &&& 0 <= #[trigger] at[i] < events.len()
                &&& events[at[i]] is Link
                &&& 0 <= events[at[i]]->offset <= bytes.len()
                &&& records_of(path, links_of(events, bytes))[i].path == path
                &&& records_of(path, links_of(events, bytes))[i].link == events[at[i]]->url
                &&& records_of(path, links_of(events, bytes))[i].linenum == 1 + bytes.take(
                    events[at[i]]->offset,
                ).to_multiset().count(10u8)
            },
{
    lemma_offsets_in_document(events, 0, bytes.len() as int);
    links_are_recorded_one_for_one(path, links_of(events, bytes));
    every_link_is_found(events, bytes)
}

/// Whether the parser reports the links of a document in order, and the number of a
/// line behind the last byte fits.
pub open spec fn has_ordered_links(buffer: Seq<char>) -> bool {
    let len = encode_utf8(buffer).len();
    len < usize::MAX && in_order(markdown_events(buffer), 0, len as int)
}

/// The links of a document are reported in order exactly when the offsets do not go back
/// and are in the document, all of whose lines have a number that fits.
pub proof fn ordered_exactly_when_sorted(buffer: Seq<char>)
    ensures
        has_ordered_links(buffer) <==> {
            let events = markdown_events(buffer);
            &&& encode_utf8(buffer).len() < usize::MAX
            &&& forall|k: int|
                0 <= k < events.len() && (#[trigger] events[k]) is Link ==> 0 <= events[k]->offset
                    <= encode_utf8(buffer).len()
            &&& forall|k: int, m: int|
                0 <= k <= m < events.len() && (#[trigger] events[k]) is Link && (
                #[trigger] events[m]) is Link ==> events[k]->offset <= events[m]->offset
        },
{
    in_order_exactly_when_sorted(markdown_events(buffer), 0, encode_utf8(buffer).len() as int);
}

/// Adds the links that the parser still has to find.
fn append_links(path: &str, parser: MdLinkParser<'_>, links: &mut Vec<Record>)
    requires
        parser.wf(),
        in_order(parser.pending(), parser.offset(), parser.bytes().len() as int),
    ensures
        old(links)@.is_prefix_of(final(links)@),
        record_views(final(links)@) == record_views(old(links)@) + records_of(
            path@,
            links_of(parser.pending(), parser.bytes()),
        ),
{
    let ghost all = record_views(old(links)@) + records_of(
        path@,
        links_of(parser.pending(), parser.bytes()),
    );
    let mut parser = parser;
    proof {
        assert(record_views(links@) + records_of(
            path@,
            links_of(parser.pending(), parser.bytes()),
        ) =~= all);
        assert(old(links)@ =~= links@.take(old(links)@.len() as int));
    }
    loop
        invariant
            parser.wf(),
            in_order(parser.pending(), parser.offset(), parser.bytes().len() as int),
            old(links)@.len() <= links@.len(),
            old(links)@ == links@.take(old(links)@.len() as int),
            record_views(links@) + records_of(
                path@,
                links_of(parser.pending(), parser.bytes()),
            ) == all,
        ensures
            old(links)@.len() <= links@.len(),
            old(links)@ == links@.take(old(links)@.len() as int),
            record_views(links@) == all,
        decreases parser.pending().len(),
    {
        let ghost before = links@;
        let ghost bytes = parser.bytes();
        let ghost found = links_of(parser.pending(), bytes);
        proof {
            lemma_in_order(parser.pending(), parser.offset(), bytes.len() as int);
        }
        match parser.next() {
            Some((linenum, link)) => {
                links.push(Record { path: path.to_owned(), linenum, link });
                proof {
                    let rest = links_of(parser.pending(), bytes);
                    assert(records_of(path@, found) =~= seq![links@.last()@] + records_of(
                        path@,
                        rest,
                    ));
                    assert(record_views(links@) =~= record_views(before).push(links@.last()@));
                    assert(record_views(links@) + records_of(path@, rest) =~= all);
                    assert(links@.take(old(links)@.len() as int) =~= before.take(
                        old(links)@.len() as int,
                    ));
                }
            },
            None => {
                assert(record_views(links@) =~= all);
                break ;
            },
        }
    }
    assert(old(links)@.is_prefix_of(links@));
}

/// Adds the links of the document `buffer`, which was read from `path`.
pub fn md_file_links(path: &str, buffer: &str, links: &mut Vec<Record>)
    requires
        has_ordered_links(buffer@),
    ensures
        old(links)@.is_prefix_of(final(links)@),
        record_views(final(links)@) == record_views(old(links)@) + records_of(
            path@,
            links_of(markdown_events(buffer@), encode_utf8(buffer@)),
        ),
        final(links)@.len() == old(links)@.len() + links_of(
            markdown_events(buffer@),
            encode_utf8(buffer@),
        ).len(),
        forall|i: int|
            old(links)@.len() <= i < final(links)@.len() ==> {
                let (line, target) = links_of(markdown_events(buffer@), encode_utf8(buffer@))[i
                    - old(links)@.len()];
                &&& (#[trigger] final(links)@[i]).path@ == path@
                &&& final(links)@[i].linenum == line
                &&& final(links)@[i].link@ == target
            },
{
    append_links(path, MdLinkParser::new(buffer), links);
    proof {
        let before = record_views(old(links)@);
        let found = links_of(markdown_events(buffer@), encode_utf8(buffer@));
        let after = record_views(links@);
        assert(after == before + records_of(path@, found));
        links_are_recorded_one_for_one(path@, found);
        records_are_seen_as_they_are(old(links)@);
        records_are_seen_as_they_are(links@);
        assert forall|i: int| old(links)@.len() <= i < links@.len() implies ({
            let (line, target) = found[i - old(links)@.len()];
            &&& (#[trigger] links@[i]).path@ == path@
            &&& links@[i].linenum == line
            &&& links@[i].link@ == target
        }) by {
            assert(after[i] == records_of(path@, found)[i - before.len()]);
        }
    }
}

/// Whether the offsets of the links do not go back, and do not exceed `len`.
fn check_order(events: &Vec<Event>, len: usize) -> (res: bool)
    ensures
        res == in_order(event_views(events@), 0, len as int),
{
    let ghost all = event_views(events@);
    let mut last: usize = 0;
    let mut i: usize = 0;
    assert(all.skip(0) =~= all);
    while i < events.len()
        invariant
            i <= events@.len(),
            all == event_views(events@),
            in_order(all, 0, len as int) == in_order(all.skip(i as int), last as int, len as int),
        decreases events@.len() - i,
    {
        let ghost rest = all.skip(i as int);
        assert(rest[0] == events@[i as int]@);
        assert(rest.skip(1) =~= all.skip(i + 1));
        if let Event::Link { offset, .. } = &events[i] {
            if *offset < last {
                return false;
            }
            last = *offset;
        }
        i = i + 1;
    }
    last <= len
}

/// Adds the links of the document `buffer`, which was read from `path`. Where the
/// parser does not report them in order, nothing is added, and the result is `false`.
pub fn try_md_file_links(path: &str, buffer: &str, links: &mut Vec<Record>) -> (res: bool)
    ensures
        res == has_ordered_links(buffer@),
        !res ==> final(links)@ == old(links)@,
        res ==> old(links)@.is_prefix_of(final(links)@),
        res ==> record_views(final(links)@) == record_views(old(links)@) + records_of(
            path@,
            links_of(markdown_events(buffer@), encode_utf8(buffer@)),
        ),
        res ==> final(links)@.len() == old(links)@.len() + links_of(
            markdown_events(buffer@),
            encode_utf8(buffer@),
        ).len(),
        res ==> forall|i: int|
            old(links)@.len() <= i < final(links)@.len() ==> {
                let (line, target) = links_of(markdown_events(buffer@), encode_utf8(buffer@))[i
                    - old(links)@.len()];
                &&& (#[trigger] final(links)@[i]).path@ == path@
                &&& final(links)@[i].linenum == line
                &&& final(links)@[i].link@ == target
            },
{
    if MdLinkParser::try_new(buffer).is_none() {
        return false;
    }
    md_file_links(path, buffer, links);
    true
}

} // verus!
