//! The anchors of Markdown documents.
use vstd::prelude::*;
use vstd::string::*;
use vstd::hash_map::StringHashMap;
use crate::id::{GithubId, ToId};
use crate::markdown;
use crate::markdown::{parse_markdown, Event};
use crate::text;

verus! {

/// How often `text` occurs among `texts`.
pub open spec fn occurrences(texts: Seq<Seq<char>>, text: Seq<char>) -> nat
    decreases texts.len(),
{
    if texts.len() == 0 {
        0
    } else {
        occurrences(texts.drop_last(), text) + if texts.last() == text {
            1nat
        } else {
            0nat
        }
    }
}

/// The texts of the headings: of each, the first text that comes after its beginning.
/// `is_header` tells whether a heading has begun whose text is still to come.
pub open spec fn header_texts(events: Seq<markdown::EventView>, is_header: bool) -> Seq<Seq<char>>
    decreases events.len(),
{
    if events.len() == 0 {
        seq![]
    } else {
        match events[0] {
            markdown::EventView::Header => header_texts(events.skip(1), true),
            markdown::EventView::Text(text) => if is_header {
                seq![text] + header_texts(events.skip(1), false)
            } else {
                header_texts(events.skip(1), is_header)
            },
            _ => header_texts(events.skip(1), is_header),
        }
    }
}

/// The number of times that a text occurs is the number of its copies.
pub proof fn occurrences_count_copies(texts: Seq<Seq<char>>, text: Seq<char>)
    ensures
        occurrences(texts, text) == texts.to_multiset().count(text),
    decreases texts.len(),
{
    broadcast use vstd::seq_lib::group_to_multiset_ensures;

    if texts.len() > 0 {
        occurrences_count_copies(texts.drop_last(), text);
        assert(texts =~= texts.drop_last().push(texts.last()));
    } else {
        assert(!texts.contains(text));
    }
}

/// Whether the event `k` is the text of a heading: it is a text, and since the last
/// heading began, or since before the first event if `is_header`, there was none.
spec fn is_header_text(events: Seq<markdown::EventView>, is_header: bool, k: int) -> bool {
    &&& 0 <= k < events.len()
    &&& events[k] is Text
    &&& exists|h: int| #[trigger] is_open(events, is_header, h, k)
}

/// Whether a heading began with the event `h`, or before the first event if `h` is -1, and
/// there was no text from there to `k`.
spec fn is_open(events: Seq<markdown::EventView>, is_header: bool, h: int, k: int) -> bool {
    &&& -1 <= h < k
    &&& h == -1 ==> is_header
    &&& h >= 0 ==> events[h] is Header
    &&& forall|m: int| h < m < k ==> !((#[trigger] events[m]) is Text)
}

/// What is the text of a heading stays so if an event is put in front.
proof fn lemma_is_header_text(events: Seq<markdown::EventView>, is_header: bool, k: int)
    requires
        events.len() > 0,
        0 < k < events.len(),
    ensures
        is_header_text(events, is_header, k) <==> is_header_text(
            events.skip(1),
            match events[0] {
                markdown::EventView::Header => true,
                markdown::EventView::Text(_) => false,
                _ => is_header,
            },
            k - 1,
        ),
{
    let rest = events.skip(1);
    let flag = match events[0] {
        markdown::EventView::Header => true,
        markdown::EventView::Text(_) => false,
        _ => is_header,
    };
    assert(rest[k - 1] == events[k]);
    if is_header_text(events, is_header, k) {
        let h = choose|h: int| #[trigger] is_open(events, is_header, h, k);
        let g = if h <= 0 {
            -1int
        } else {
            h - 1
        };
        if h > 0 {
            assert(rest[g] == events[h]);
        } else if h == -1 {
            assert(!(events[0] is Text));
        }
        assert forall|m: int| g < m < k - 1 implies !((#[trigger] rest[m]) is Text) by {
            assert(rest[m] == events[m + 1]);
        }
        assert(is_open(rest, flag, g, k - 1));
    }
    if is_header_text(rest, flag, k - 1) {
        let g = choose|g: int| #[trigger] is_open(rest, flag, g, k - 1);
        let h = if g >= 0 {
            g + 1
        } else if events[0] is Header {
            0
        } else {
            -1int
        };
        if g >= 0 {
            assert(events[h] == rest[g]);
        }
        assert forall|m: int| h < m < k implies !((#[trigger] events[m]) is Text) by {
            if m > 0 {
                assert(rest[m - 1] == events[m]);
            }
        }
        assert(is_open(events, is_header, h, k));
    }
}

/// The texts of the headings are those of the events at the positions `at`, in order.
proof fn lemma_header_texts(events: Seq<markdown::EventView>, is_header: bool) -> (at: Seq<int>)
    ensures
        at.len() == header_texts(events, is_header).len(),
        forall|i: int, j: int| 0 <= i < j < at.len() ==> at[i] < at[j],
        forall|k: int| #[trigger]
            is_header_text(events, is_header, k) ==> exists|i: int|
                0 <= i < at.len() && at[i] == k,
        forall|i: int|
            0 <= i < at.len() ==> {
                &&& 0 <= #[trigger] at[i] < events.len()
                &&& is_header_text(events, is_header, at[i])
                &&& events[at[i]] == markdown::EventView::Text(header_texts(events, is_header)[i])
            },
    decreases events.len(),
{
    if events.len() == 0 {
        seq![]
    } else {
        let rest = events.skip(1);
        let flag = match events[0] {
            markdown::EventView::Header => true,
            markdown::EventView::Text(_) => false,
            _ => is_header,
        };
        let found = lemma_header_texts(rest, flag);
        let moved = Seq::new(found.len(), |i: int| found[i] + 1);
        let texts = header_texts(events, is_header);
        let others = header_texts(rest, flag);
        let is_first = events[0] is Text && is_header;
        let first = if is_first {
            1int
        } else {
            0int
        };
        let at = if is_first {
            seq![0int] + moved
        } else {
            moved
        };
        assert(texts =~= if is_first {
            seq![events[0]->Text_0] + others
        } else {
            others
        });
        if is_first {
            assert(is_open(events, is_header, -1, 0));
            assert(is_header_text(events, is_header, 0));
        }
        assert forall|i: int| 0 <= i < at.len() implies ({
            &&& 0 <= #[trigger] at[i] < events.len()
            &&& is_header_text(events, is_header, at[i])
            &&& events[at[i]] == markdown::EventView::Text(texts[i])
        }) by {
            if i >= first {
                let k = found[i - first];
                assert(at[i] == k + 1);
                assert(rest[k] == events[k + 1]);
                assert(is_header_text(rest, flag, k));
                lemma_is_header_text(events, is_header, k + 1);
            }
        }
        assert forall|k: int| #[trigger] is_header_text(events, is_header, k) implies exists|i: int|
            0 <= i < at.len() && at[i] == k by {
            if k == 0 {
                let h = choose|h: int| #[trigger] is_open(events, is_header, h, k);
                assert(at[0] == 0);
            } else {
                lemma_is_header_text(events, is_header, k);
                let i = choose|i: int| 0 <= i < found.len() && found[i] == k - 1;
                assert(at[i + first] == k);
            }
        }
        assert forall|i: int, j: int| 0 <= i < j < at.len() implies at[i] < at[j] by {
            if i >= first {
                assert(found[i - first] < found[j - first]);
            } else {
                assert(found[j - first] >= 0);
            }
        }
        at
    }
}

/// Every heading gives the first text that comes after its beginning, whatever else comes
/// between, and nothing else gives one: the texts are those of the events at the positions
/// `at`, in order. Such a position is one of a text for which a heading began before,
/// with no text between, and all such positions are among them.
pub proof fn every_heading_gives_its_first_text(events: Seq<markdown::EventView>) -> (at: Seq<int>)
    ensures
        at.len() == header_texts(events, false).len(),
        forall|i: int, j: int| 0 <= i < j < at.len() ==> at[i] < at[j],
        forall|h: int, k: int|
            0 <= h < k < events.len() && (#[trigger] events[h]) is Header && (
            #[trigger] events[k]) is Text && (forall|m: int|
                h < m < k ==> !((#[trigger] events[m]) is Text)) ==> exists|i: int|
                0 <= i < at.len() && at[i] == k,
        forall|i: int|
            0 <= i < at.len() ==> {
                &&& 0 <= #[trigger] at[i] < events.len()
                &&& events[at[i]] == markdown::EventView::Text(header_texts(events, false)[i])
                &&& exists|h: int|
                    {
                        &&& 0 <= h < at[i]
                        &&& (#[trigger] events[h]) is Header
                        &&& forall|m: int| h < m < at[i] ==> !((#[trigger] events[m]) is Text)
                    }
            },
{
    let at = lemma_header_texts(events, false);
    assert forall|h: int, k: int|
        0 <= h < k < events.len() && (#[trigger] events[h]) is Header && (
        #[trigger] events[k]) is Text && (forall|m: int|
            h < m < k ==> !((#[trigger] events[m]) is Text)) implies exists|i: int|
        0 <= i < at.len() && at[i] == k by {
        assert(is_open(events, false, h, k));
        assert(is_header_text(events, false, k));
    }
    assert forall|i: int| 0 <= i < at.len() implies ({
        &&& 0 <= #[trigger] at[i] < events.len()
        &&& events[at[i]] == markdown::EventView::Text(header_texts(events, false)[i])
        &&& exists|h: int|
            {
                &&& 0 <= h < at[i]
                &&& (#[trigger] events[h]) is Header
                &&& forall|m: int| h < m < at[i] ==> !((#[trigger] events[m]) is Text)
            }
    }) by {
        let k = at[i];
        assert(is_header_text(events, false, k));
        let h = choose|h: int| #[trigger] is_open(events, false, h, k);
        assert(events[h] is Header);
    }
    at
}

/// The identifiers of headings with these texts, each made of the text and of the
/// number of headings before it that have the same text.
pub open spec fn anchor_ids<T: ToId>(id_transform: T, texts: Seq<Seq<char>>) -> Seq<Seq<char>> {
    Seq::new(
        texts.len(),
        |i: int| id_transform.spec_id(texts[i], occurrences(texts.take(i), texts[i])),
    )
}

/// Every text gets an identifier, made of the text and of the number of its copies before.
pub proof fn every_text_gets_an_identifier<T: ToId>(id_transform: T, texts: Seq<Seq<char>>)
    ensures
        anchor_ids(id_transform, texts).len() == texts.len(),
        forall|i: int|
            0 <= i < texts.len() ==> #[trigger] anchor_ids(id_transform, texts)[i]
                == id_transform.spec_id(texts[i], texts.take(i).to_multiset().count(texts[i])),
{
    assert forall|i: int| 0 <= i < texts.len() implies #[trigger] anchor_ids(id_transform, texts)[i]
        == id_transform.spec_id(texts[i], texts.take(i).to_multiset().count(texts[i])) by {
        occurrences_count_copies(texts.take(i), texts[i]);
    }
}

/// The anchors of a document on GitHub: two headings of the same text never get the
/// same one.
pub proof fn same_headings_get_different_anchors(texts: Seq<Seq<char>>, i: int, j: int)
    requires
        0 <= i < j < texts.len(),
        texts[i] == texts[j],
    ensures
        anchor_ids(GithubId, texts)[i] != anchor_ids(GithubId, texts)[j],
{
    lemma_occurrences_grow(texts, texts[i], i + 1, j);
    assert(texts.take(i + 1).drop_last() =~= texts.take(i));
    assert(texts.take(i + 1).last() == texts[i]);
    crate::id::repeated_headings_differ(
        texts[i],
        occurrences(texts.take(i), texts[i]),
        occurrences(texts.take(j), texts[j]),
    );
}

/// A text occurs as often in more texts, or more often.
proof fn lemma_occurrences_grow(texts: Seq<Seq<char>>, text: Seq<char>, a: int, b: int)
    requires
        0 <= a <= b <= texts.len(),
    ensures
        occurrences(texts.take(a), text) <= occurrences(texts.take(b), text),
    decreases b - a,
{
    if a < b {
        assert(texts.take(b).drop_last() =~= texts.take(b - 1));
        lemma_occurrences_grow(texts, text, a, b - 1);
    }
}

/// Counts headings by their text.
pub struct Headers(StringHashMap<usize>);

impl View for Headers {
    type V = Map<Seq<char>, usize>;

    closed spec fn view(&self) -> Map<Seq<char>, usize> {
        self.0@
    }
}

/// The number of headings of this text so far.
pub open spec fn count_of(headers: Map<Seq<char>, usize>, text: Seq<char>) -> usize {
    if headers.contains_key(text) {
        headers[text]
    } else {
        0
    }
}

/// Where a text was not counted yet there were no headings of it; else the number of them
/// is the one that was kept.
pub proof fn count_is_the_one_kept(headers: Map<Seq<char>, usize>, text: Seq<char>, count: usize)
    ensures
        !headers.contains_key(text) ==> count_of(headers, text) == 0,
        count_of(headers.insert(text, count), text) == count,
        forall|other: Seq<char>|
            other != text ==> #[trigger] count_of(headers.insert(text, count), other) == count_of(
                headers,
                other,
            ),
{
}

impl Headers {
    /// No headings so far.
    pub fn new() -> (res: Headers)
        ensures
            res@ == Map::<Seq<char>, usize>::empty(),
    {
        Headers(StringHashMap::new())
    }

    /// Counts one more heading of this text, and gives the number of those before it.
    pub fn register(&mut self, text: String) -> (res: usize)
        requires
            count_of(old(self)@, text@) < usize::MAX,
        ensures
            res == count_of(old(self)@, text@),
            final(self)@ == old(self)@.insert(text@, (res + 1) as usize),
    {
        let count = match self.0.get(&text) {
            Some(count) => *count,
            None => 0,
        };
        self.0.insert(text, count + 1);
        count
    }
}

/// Finds the anchors of a document one after the other.
pub struct MdAnchorParser<T: ToId> {
    events: Vec<Event>,
    pos: usize,
    is_header: bool,
    headers: Headers,
    id_transform: T,
}

impl<T: ToId> MdAnchorParser<T> {
    /// The texts of the headings that are still to come.
    pub closed spec fn pending(self) -> Seq<Seq<char>> {
        header_texts(
            markdown::event_views(self.events@).skip(self.pos as int),
            self.is_header,
        )
    }

    /// The number of events that are still to come.
    pub closed spec fn remaining(self) -> nat {
        (self.events@.len() - self.pos) as nat
    }

    /// The headings so far.
    pub closed spec fn headers(self) -> Map<Seq<char>, usize> {
        self.headers@
    }

    /// How identifiers are made.
    pub closed spec fn transform(self) -> T {
        self.id_transform
    }

    /// There were at most as many headings of any text as there were events.
    pub closed spec fn wf(self) -> bool {
        &&& self.pos <= self.events@.len()
        &&& forall|text: Seq<char>| #[trigger] count_of(self.headers@, text) <= self.pos
    }

    /// A parser for the events of a document.
    pub fn new(events: Vec<Event>, id_transform: T) -> (res: MdAnchorParser<T>)
        ensures
            res.wf(),
            res.pending() == header_texts(markdown::event_views(events@), false),
            res.headers() == Map::<Seq<char>, usize>::empty(),
            res.transform() == id_transform,
    {
        assert(markdown::event_views(events@).skip(0) =~= markdown::event_views(events@));
        MdAnchorParser { events, pos: 0, is_header: false, headers: Headers::new(), id_transform }
    }

    /// A parser for a document.
    pub fn from_buffer(buffer: &str, id_transform: T) -> (res: MdAnchorParser<T>)
        ensures
            res.wf(),
            res.pending() == header_texts(markdown::markdown_events(buffer@), false),
            res.headers() == Map::<Seq<char>, usize>::empty(),
            res.transform() == id_transform,
    {
        MdAnchorParser::new(parse_markdown(buffer), id_transform)
    }

    /// The next anchor.
    pub fn next(&mut self) -> (res: Option<String>)
        requires
            old(self).wf(),
        ensures
            final(self).wf(),
            final(self).transform() == old(self).transform(),
            match res {
                Some(id) => {
                    let pending = old(self).pending();
                    let count = count_of(old(self).headers(), pending[0]);
                    &&& pending.len() > 0
                    &&& id@ == old(self).transform().spec_id(pending[0], count as nat)
                    &&& final(self).pending() == pending.skip(1)
                    &&& final(self).headers() == old(self).headers().insert(
                        pending[0],
                        (count + 1) as usize,
                    )
                    &&& count < usize::MAX
                    &&& final(self).remaining() < old(self).remaining()
                },
                None => {
                    &&& old(self).pending().len() == 0
                    &&& final(self).pending().len() == 0
                    &&& final(self).headers() == old(self).headers()
                },
            },
    {
        while self.pos < self.events.len()
            invariant
                self.wf(),
                self.pending() == old(self).pending(),
                self.headers() == old(self).headers(),
                self.transform() == old(self).transform(),
                self.remaining() <= old(self).remaining(),
            decreases self.events@.len() - self.pos,
        {
            let ghost all = markdown::event_views(self.events@);
            let ghost rest = all.skip(self.pos as int);
            let pos = self.pos;
            assert(rest[0] == self.events@[pos as int]@);
            assert(rest.skip(1) =~= all.skip(pos + 1));
            match &self.events[pos] {
                Event::Header => {
                    self.is_header = true;
                },
                Event::Text(text) => {
                    if self.is_header {
                        let text = text.clone();
                        self.is_header = false;
                        self.pos = pos + 1;
                        assert(count_of(self.headers@, text@) <= pos);
                        let ghost counts = self.headers@;
                        let count = self.headers.register(text.clone());
                        proof {
                            let pending = old(self).pending();
                            assert(pending[0] == text@);
                            assert(pending.skip(1) =~= self.pending());
                            assert forall|t: Seq<char>| #[trigger] count_of(self.headers@, t)
                                <= self.pos by {
                                assert(count_of(counts, t) <= pos);
                            }
                        }
                        return Some(self.id_transform.to_id(&text, count));
                    }
                },
                _ => {},
            }
            self.pos = pos + 1;
        }
        None
    }
}

/// All the anchors that a parser finds.
fn collect<T: ToId>(parser: MdAnchorParser<T>) -> (res: Vec<String>)
    requires
        parser.wf(),
        parser.headers() == Map::<Seq<char>, usize>::empty(),
    ensures
        text::views(res@) == anchor_ids(parser.transform(), parser.pending()),
{
    let ghost texts = parser.pending();
    let ghost id_transform = parser.transform();
    let mut parser = parser;
    let mut ids: Vec<String> = Vec::new();
    proof {
        assert(texts.skip(0) =~= texts);
        assert forall|t: Seq<char>| #[trigger] count_of(parser.headers(), t) == occurrences(
            texts.take(0),
            t,
        ) by {}
    }
    loop
        invariant
            parser.wf(),
            parser.transform() == id_transform,
            ids@.len() <= texts.len(),
            parser.pending() == texts.skip(ids@.len() as int),
            forall|t: Seq<char>| #[trigger] count_of(parser.headers(), t) == occurrences(
                texts.take(ids@.len() as int),
                t,
            ),
            forall|i: int|
                0 <= i < ids@.len() ==> (#[trigger] ids@[i])@ == anchor_ids(id_transform, texts)[i],
        ensures
            ids@.len() == texts.len(),
            forall|i: int|
                0 <= i < ids@.len() ==> (#[trigger] ids@[i])@ == anchor_ids(id_transform, texts)[i],
        decreases parser.remaining(),
    {
        let ghost k = ids@.len() as int;
        let ghost counts = parser.headers();
        let ghost before = ids@;
        match parser.next() {
            Some(id) => {
                ids.push(id);
                proof {
                    let text = texts[k];
                    assert(texts.skip(k)[0] == text);
                    assert(texts.skip(k).skip(1) =~= texts.skip(k + 1));
                    assert(texts.take(k + 1).drop_last() =~= texts.take(k));
                    assert forall|t: Seq<char>| #[trigger] count_of(parser.headers(), t)
                        == occurrences(texts.take(k + 1), t) by {
                        assert(count_of(counts, t) == occurrences(texts.take(k), t));
                    }
                    assert(count_of(counts, text) == occurrences(texts.take(k), text));
                    assert forall|i: int| 0 <= i < ids@.len() implies (#[trigger] ids@[i])@
                        == anchor_ids(id_transform, texts)[i] by {
                        if i < k {
                            assert(ids@[i] == before[i]);
                        }
                    }
                }
            },
            None => {
                break ;
            },
        }
    }
    assert(text::views(ids@) =~= anchor_ids(id_transform, texts));
    ids
}

/// The anchors that the headings among the events get.
pub fn anchors<T: ToId>(events: Vec<Event>, id_transform: T) -> (res: Vec<String>)
    ensures
        text::views(res@) == anchor_ids(
            id_transform,
            header_texts(markdown::event_views(events@), false),
        ),
{
    collect(MdAnchorParser::new(events, id_transform))
}

/// The anchors of the document `buffer`.
pub fn get_path_ids<T: ToId>(buffer: &str, id_transform: T) -> (res: Vec<String>)
    ensures
        text::views(res@) == anchor_ids(
            id_transform,
            header_texts(markdown::markdown_events(buffer@), false),
        ),
{
    collect(MdAnchorParser::from_buffer(buffer, id_transform))
}

} // verus!
