//! Resolving links: finding the document, and the fragment in it.
use vstd::prelude::*;
use vstd::string::*;
use vstd::hash_map::StringHashMap;
use std::rc::Rc;
use crate::errors::{Error, ErrorKind, LinkError};
use crate::fragment;
use crate::fragment::lookup_fragment;
use crate::link;
use crate::link::{is_link_parsable, Link};
use crate::record::Record;
use crate::tag::Tag;
use crate::text;
use crate::url::UrlError;

verus! {

/// The anchors of a document, or the tag and the error to report where they could not
/// be found.
pub type Fetched = Result<Vec<String>, (Tag, Rc<LinkError>)>;

/// Where the anchors of documents come from.
pub trait Targets {
    /// Fetches the anchors of the document that a link points to.
    fn fetch_targets(&self, link: &Link) -> Result<Vec<String>, (Tag, Rc<LinkError>)>;
}

/// What tells documents apart: the text of the URL, or the path.
pub enum Document {
    Url(Seq<char>),
    Path(Seq<char>),
}

/// The document that a link points to.
pub open spec fn document(link: link::LinkView) -> Document {
    match link {
        link::LinkView::Url(url) => Document::Url(url.text()),
        link::LinkView::Path(path) => Document::Path(path),
    }
}

/// Links point to the same document exactly when both are URLs or both are paths, and
/// their texts are the same.
pub proof fn documents_are_told_apart_by_text(a: link::LinkView, b: link::LinkView)
    ensures
        document(a) == document(b) <==> (a is Url <==> b is Url) && a.text() == b.text(),
{
}

/// What has been fetched so far, by document.
pub struct TargetMap {
    urls: StringHashMap<Fetched>,
    paths: StringHashMap<Fetched>,
}

impl View for TargetMap {
    type V = Map<Document, Fetched>;

    closed spec fn view(&self) -> Map<Document, Fetched> {
        Map::new(
            |doc: Document|
                match doc {
                    Document::Url(url) => self.urls@.contains_key(url),
                    Document::Path(path) => self.paths@.contains_key(path),
                },
            |doc: Document|
                match doc {
                    Document::Url(url) => self.urls@[url],
                    Document::Path(path) => self.paths@[path],
                },
        )
    }
}

impl TargetMap {
    /// Nothing has been fetched.
    pub fn new() -> (res: TargetMap)
        ensures
            res@ == Map::<Document, Fetched>::empty(),
    {
        let res = TargetMap { urls: StringHashMap::new(), paths: StringHashMap::new() };
        assert(res@ =~= Map::<Document, Fetched>::empty());
        res
    }

    /// What was fetched for the document that a link points to.
    pub fn get(&self, link: &Link) -> (res: Option<&Fetched>)
        ensures
            match res {
                Some(fetched) => self@.contains_key(document(link@)) && self@[document(link@)]
                    == *fetched,
                None => !self@.contains_key(document(link@)),
            },
    {
        match link {
            Link::Url(url) => self.urls.get(&url.text()),
            Link::Path(path) => self.paths.get(path),
        }
    }

    /// Keeps what was fetched for the document that a link points to.
    pub fn insert(&mut self, link: &Link, fetched: Fetched)
        ensures
            final(self)@ == old(self)@.insert(document(link@), fetched),
            forall|other: link::LinkView|
                (other is Url <==> link@ is Url) && other.text() == link@.text() ==> final(self)@.contains_key(#[trigger] document(other)) && final(self)@[document(other)]
                    == fetched,
            forall|other: link::LinkView|
                !((other is Url <==> link@ is Url) && other.text() == link@.text()) ==> (final(self)@.contains_key(#[trigger] document(other)) <==> old(self)@.contains_key(
                    document(other),
                )) && final(self)@[document(other)] == old(self)@[document(other)],
    {
        proof {
            assert forall|other: link::LinkView| #[trigger]
                document(other) == document(link@) <==> (other is Url <==> link@ is Url)
                    && other.text() == link@.text() by {
                documents_are_told_apart_by_text(other, link@);
            }
        }
        match link {
            Link::Url(url) => self.urls.insert(url.text(), fetched),
            Link::Path(path) => self.paths.insert(path.clone(), fetched),
        }
        assert(self@ =~= old(self)@.insert(document(link@), fetched));
    }
}

/// Another pointer to the same error, as `Rc::clone` gives it.
#[verifier::external_body]
fn share(err: &Rc<LinkError>) -> (res: Rc<LinkError>)
    ensures
        res == *err,
{
    err.clone()
}

/// Whether `res` is what is to be reported of a link, of whose document `fetched` was
/// fetched.
pub open spec fn is_resolution(
    res: (Tag, Option<Rc<LinkError>>),
    fetched: Fetched,
    base: link::LinkView,
    fragment: Option<Seq<char>>,
    prefixes: Seq<Seq<char>>,
) -> bool {
    match fetched {
        Err((tag, err)) => res.0 == tag && res.1 == Some(err),
        Ok(ids) => match fragment {
            None => res.0@ is Ok && res.1 is None,
            Some(fragment) => {
                let found = fragment::lookup(text::views(ids@), fragment, prefixes);
                if found is Found {
                    res.0@ is Ok && res.1 is None
                } else {
                    &&& res.1 is Some
                    &&& res.1->0.link@ == base
                    &&& *res.1->0.cause is Fragment
                    &&& fragment::reports(
                        Err((res.0, res.1->0.cause->Fragment_0)),
                        fragment,
                        found,
                    )
                }
            },
        },
    }
}

/// A link is reported as in order exactly when the anchors of its document were found
/// and the fragment, if there is one, is among them; there is an error to report in
/// all other cases. What is fetched must not be a failure that is tagged as in order.
pub proof fn in_order_exactly_when_found(
    res: (Tag, Option<Rc<LinkError>>),
    fetched: Fetched,
    base: link::LinkView,
    fragment: Option<Seq<char>>,
    prefixes: Seq<Seq<char>>,
)
    requires
        is_resolution(res, fetched, base, fragment, prefixes),
        fetched matches Err((tag, _)) ==> tag@ is Err,
    ensures
        res.0@ is Ok <==> fetched is Ok && (fragment is None || text::views(
            fetched->Ok_0@,
        ).contains(fragment->0)),
        res.0@ is Ok <==> res.1 is None,
{
}

/// Whether what was fetched is a failure that is tagged as in order.
pub open spec fn is_failure_in_order(fetched: Fetched) -> bool {
    fetched is Err && fetched->Err_0.0@ is Ok
}

/// Whether no failure that was kept is tagged as in order.
pub open spec fn keeps_no_failure_in_order(targets: Map<Document, Fetched>) -> bool {
    forall|doc: Document|
        targets.contains_key(doc) ==> !is_failure_in_order(#[trigger] targets[doc])
}

/// Whether a link to `base` was resolved as `res`, with what had been fetched `before`
/// and what has been fetched `after`: nothing is fetched anew, at most one document is
/// added, and `res` is what is to be reported.
pub open spec fn is_resolved(
    before: Map<Document, Fetched>,
    after: Map<Document, Fetched>,
    res: (Tag, Option<Rc<LinkError>>),
    base: link::LinkView,
    fragment: Option<Seq<char>>,
    prefixes: Seq<Seq<char>>,
) -> bool {
    let doc = document(base);
    &&& after.contains_key(doc)
    &&& after == if before.contains_key(doc) {
        before
    } else {
        before.insert(doc, after[doc])
    }
    &&& is_resolution(res, after[doc], base, fragment, prefixes)
}

/// Where no failure that was kept, and none that is fetched for the link, is tagged as
/// in order, a link is reported as in order exactly when there is no error, and still no
/// failure that is kept is tagged as in order.
pub proof fn in_order_exactly_when_no_error(
    before: Map<Document, Fetched>,
    after: Map<Document, Fetched>,
    res: (Tag, Option<Rc<LinkError>>),
    base: link::LinkView,
    fragment: Option<Seq<char>>,
    prefixes: Seq<Seq<char>>,
)
    requires
        is_resolved(before, after, res, base, fragment, prefixes),
        keeps_no_failure_in_order(before),
        !before.contains_key(document(base)) ==> !is_failure_in_order(after[document(base)]),
    ensures
        res.0@ is Ok <==> res.1 is None,
        keeps_no_failure_in_order(after),
{
    let fetched = after[document(base)];
    assert(!is_failure_in_order(fetched)) by {
        if before.contains_key(document(base)) {
            assert(!is_failure_in_order(before[document(base)]));
        }
    }
    in_order_exactly_when_found(res, fetched, base, fragment, prefixes);
}

/// Where a link was resolved before, and what was fetched for its document is still kept,
/// resolving another link to the document keeps nothing else. The same link is tagged as
/// before, and has an error if it had one.
pub proof fn resolved_again_as_before(
    before: Map<Document, Fetched>,
    kept: Map<Document, Fetched>,
    res: (Tag, Option<Rc<LinkError>>),
    later: Map<Document, Fetched>,
    after: Map<Document, Fetched>,
    again: (Tag, Option<Rc<LinkError>>),
    base: link::LinkView,
    fragment: Option<Seq<char>>,
    prefixes: Seq<Seq<char>>,
    other_fragment: Option<Seq<char>>,
    other_prefixes: Seq<Seq<char>>,
)
    requires
        is_resolved(before, kept, res, base, fragment, prefixes),
        later.contains_key(document(base)),
        later[document(base)] == kept[document(base)],
        is_resolved(later, after, again, base, other_fragment, other_prefixes),
    ensures
        after == later,
        other_fragment == fragment && other_prefixes == prefixes ==> again.0@ == res.0@ && (
        again.1 is None <==> res.1 is None),
{
    if again.0@ is Ok && res.0@ is Ok {
        let unit = again.0@->Ok_0;
        let other = res.0@->Ok_0;
        assert(unit == () && other == ());
    }
}

/// What is reported of a link, told by the anchors of its document. A failure to fetch it
/// is passed on as it is. Else the link is in order, without an error, exactly when it has
/// no fragment or the fragment is among the anchors. Else the error is about the link and
/// the fragment, and the tag tells whether some known prefix with the fragment is among
/// the anchors.
pub proof fn resolution_says_what_was_found(
    res: (Tag, Option<Rc<LinkError>>),
    fetched: Fetched,
    base: link::LinkView,
    fragment: Option<Seq<char>>,
    prefixes: Seq<Seq<char>>,
)
    requires
        is_resolution(res, fetched, base, fragment, prefixes),
    ensures
        fetched matches Err((tag, err)) ==> res.0 == tag && res.1 == Some(err),
        fetched is Ok ==> {
            let ids = text::views(fetched->Ok_0@);
            let is_found = fragment is None || ids.contains(fragment->0);
            let is_prefixed = exists|k: int|
                0 <= k < prefixes.len() && ids.contains(#[trigger] prefixes[k] + fragment->0);
            &&& res.0@ is Ok <==> is_found
            &&& res.1 is None <==> is_found
            &&& !is_found && is_prefixed ==> res.0@ == Err::<(), ErrorKind>(ErrorKind::Prefixed)
            &&& !is_found && !is_prefixed ==> res.0@ == Err::<(), ErrorKind>(ErrorKind::NoFragment)
            &&& !is_found ==> {
                &&& res.1->0.link@ == base
                &&& *res.1->0.cause is Fragment
                &&& res.1->0.cause->Fragment_0.fragment@ == fragment->0
                &&& fragment::reports(
                    Err((res.0, res.1->0.cause->Fragment_0)),
                    fragment->0,
                    fragment::lookup(ids, fragment->0, prefixes),
                )
            }
        },
{
    if let Ok(ids) = fetched {
        if let Some(fragment) = fragment {
            fragment::every_prefix_is_tried(text::views(ids@), fragment, prefixes);
        }
    }
}

/// Resolving a link keeps what was fetched for its document, and reports by it. Of every
/// other document, told apart by its text, what was kept stays as it was: nothing is added
/// or taken away. What was kept of the document itself stays too.
pub proof fn other_documents_are_left_alone(
    before: Map<Document, Fetched>,
    after: Map<Document, Fetched>,
    res: (Tag, Option<Rc<LinkError>>),
    base: link::LinkView,
    fragment: Option<Seq<char>>,
    prefixes: Seq<Seq<char>>,
    other: link::LinkView,
)
    requires
        is_resolved(before, after, res, base, fragment, prefixes),
    ensures
        after.contains_key(document(base)),
        is_resolution(res, after[document(base)], base, fragment, prefixes),
        before.contains_key(document(base)) ==> after == before,
        !(base is Url <==> other is Url) || other.text() != base.text() ==> (after.contains_key(
            document(other),
        ) <==> before.contains_key(document(other))) && after[document(other)]
            == before[document(other)],
{
    documents_are_told_apart_by_text(base, other);
}

/// The texts as string slices.
fn as_strs(ids: &Vec<String>) -> (res: Vec<&str>)
    ensures
        text::str_views(res@) == text::views(ids@),
{
    let mut strs: Vec<&str> = Vec::new();
    let mut i: usize = 0;
    while i < ids.len()
        invariant
            i <= ids@.len(),
            strs@.len() == i,
            forall|j: int| 0 <= j < i ==> (#[trigger] strs@[j])@ == ids@[j]@,
        decreases ids@.len() - i,
    {
        strs.push(ids[i].as_str());
        i = i + 1;
    }
    assert(text::str_views(strs@) =~= text::views(ids@));
    strs
}

/// What is to be reported of a link, of whose document `fetched` was fetched.
pub fn resolve_fetched(
    fetched: &Fetched,
    base: Link,
    fragment: Option<String>,
    prefixes: &[&str],
) -> (res: (Tag, Option<Rc<LinkError>>))
    ensures
        is_resolution(
            res,
            *fetched,
            base@,
            link::opt_view(fragment),
            text::str_views(prefixes@),
        ),
{
    match fetched {
        Err((tag, err)) => (*tag, Some(share(err))),
        Ok(ids) => match fragment {
            Some(fragment) => {
                let ids = as_strs(ids);
                match lookup_fragment(ids.as_slice(), &fragment, prefixes) {
                    Ok(()) => (Tag::ok(), None),
                    Err((tag, err)) => (
                        tag,
                        Some(Rc::new(LinkError::new(base, Error::Fragment(err)))),
                    ),
                }
            },
            None => (Tag::ok(), None),
        },
    }
}

/// Resolves a link: the anchors of its document are fetched, unless they were before,
/// and the fragment is looked up among them.
pub fn resolve_link<T: Targets>(
    client: &T,
    targets: &mut TargetMap,
    base: Link,
    fragment: Option<String>,
    prefixes: &[&str],
) -> (res: (Tag, Option<Rc<LinkError>>))
    ensures
        is_resolved(
            old(targets)@,
            final(targets)@,
            res,
            base@,
            link::opt_view(fragment),
            text::str_views(prefixes@),
        ),
        !old(targets)@.contains_key(document(base@)) ==> call_ensures(
            T::fetch_targets,
            (client, &base),
            final(targets)@[document(base@)],
        ),
        keeps_no_failure_in_order(old(targets)@) && (forall|fetched: Fetched| #[trigger]
            call_ensures(T::fetch_targets, (client, &base), fetched) ==> !is_failure_in_order(
                fetched,
            )) ==> (res.0@ is Ok <==> res.1 is None) && keeps_no_failure_in_order(
            final(targets)@,
        ),
{
    if targets.get(&base).is_none() {
        let fetched = client.fetch_targets(&base);
        targets.insert(&base, fetched);
    }
    let fetched = targets.get(&base).unwrap();
    let ghost after = targets@;
    let ghost view = (base@, link::opt_view(fragment));
    let res = resolve_fetched(fetched, base, fragment, prefixes);
    proof {
        if keeps_no_failure_in_order(old(targets)@) && (old(targets)@.contains_key(
            document(view.0),
        ) || !is_failure_in_order(after[document(view.0)])) {
            in_order_exactly_when_no_error(
                old(targets)@,
                after,
                res,
                view.0,
                view.1,
                text::str_views(prefixes@),
            );
        }
    }
    res
}

/// The document and the fragment that a recorded link points to.
pub open spec fn spec_parse_link(
    record: crate::record::RecordView,
    root: Seq<char>,
) -> Result<(link::LinkView, Option<Seq<char>>), UrlError> {
    match link::spec_parse_with_root(record.link, record.path, root) {
        Ok(link) => Ok((link.base(), link.fragment())),
        Err(err) => Err(err),
    }
}

/// A recorded link points to what the link is parsed as, where it stands in the document
/// that it was found in. It is split at its fragment: the text is that of the document,
/// followed by `#` and the fragment where there is one. It is refused for the same reason.
pub proof fn recorded_link_is_split(record: crate::record::RecordView, root: Seq<char>)
    ensures
        match (
            spec_parse_link(record, root),
            link::spec_parse_with_root(record.link, record.path, root),
        ) {
            (Ok((base, fragment)), Ok(link)) => {
                &&& base is Url <==> link is Url
                &&& fragment is None ==> base == link
                &&& fragment is Some ==> link.text() == base.text() + seq!['#'] + fragment->0
                &&& link is Url ==> fragment == link->Url_0.fragment
                &&& link is Path ==> (fragment is Some <==> link->Path_0.contains('#'))
                &&& link is Path ==> !base.text().contains('#')
            },
            (Err(err), Err(other)) => err == other,
            _ => false,
        },
{
    if let Ok(link) = link::spec_parse_with_root(record.link, record.path, root) {
        link::split_rejoins(link);
        if let link::LinkView::Path(path) = link {
            text::lemma_first_index(path, '#');
            link::base_holds_no_hash(link);
        }
    }
}

/// What was parsed of a recorded link is what it points to: the result is the document
/// and the fragment, or the reason why the link is refused.
pub proof fn parsed_link_is_what_it_points_to(
    res: Result<(Link, Option<String>), UrlError>,
    record: crate::record::RecordView,
    root: Seq<char>,
)
    requires
        is_parse(res, record, root),
    ensures
        match (res, spec_parse_link(record, root)) {
            (Ok((base, fragment)), Ok((spec_base, spec_fragment))) => {
                &&& base@ == spec_base
                &&& fragment is Some <==> spec_fragment is Some
                &&& fragment is Some ==> fragment->0@ == spec_fragment->0
                &&& base@.wf()
                &&& !base@.text().contains('#')
            },
            (Err(err), Err(spec_err)) => err == spec_err,
            _ => false,
        },
{
}

/// The documents that recorded links point to have no fragment, so links that differ
/// in their fragment only are fetched once.
pub proof fn parsed_document_has_no_fragment(record: crate::record::RecordView, root: Seq<char>)
    ensures
        spec_parse_link(record, root) matches Ok((base, _)) ==> base.fragment() is None
            && base.base() == base,
{
    if let Ok(link) = link::spec_parse_with_root(record.link, record.path, root) {
        link::base_has_no_fragment(link);
    }
}

/// Whether `res` is the document, which is well-formed and holds no `#`, and the fragment
/// that a recorded link points to, or the error.
pub open spec fn is_parse(
    res: Result<(Link, Option<String>), UrlError>,
    record: crate::record::RecordView,
    root: Seq<char>,
) -> bool {
    match spec_parse_link(record, root) {
        Ok((base, fragment)) => {
            &&& res is Ok
            &&& res->Ok_0.0@ == base
            &&& link::opt_view(res->Ok_0.1) == fragment
            &&& base.wf()
            &&& !base.text().contains('#')
        },
        Err(err) => res is Err && res->Err_0 == err,
    }
}

/// The document and the fragment that a recorded link points to. A fragment alone
/// points into the document that the link was found in, which must then have a file
/// name.
pub fn parse_link(record: &Record, root: &str) -> (res: Result<(Link, Option<String>), UrlError>)
    requires
        link::can_be_parsed(record.link@, record.path@),
    ensures
        is_parse(res, record@, root@),
{
    match Link::parse_with_root(&record.link, &record.path, root) {
        Ok(link) => Ok(link.split_fragment()),
        Err(err) => Err(err),
    }
}

/// The document and the fragment that a recorded link points to, or `None` if it is a
/// fragment alone and the document that it was found in has no file name, or if it is a
/// URL with a host that cannot be encoded.
pub fn try_parse_link(record: &Record, root: &str) -> (res: Option<
    Result<(Link, Option<String>), UrlError>,
>)
    ensures
        res is Some <==> link::can_be_parsed(record.link@, record.path@),
        res is Some ==> is_parse(res->0, record@, root@),
{
    if is_link_parsable(&record.link, &record.path) {
        Some(parse_link(record, root))
    } else {
        None
    }
}

} // verus!
