//! Links: URLs and paths, with or without a fragment.
use vstd::prelude::*;
use vstd::string::*;
use crate::host;
use crate::path;
use crate::path::{as_relative, file_name, is_absolute, join, with_file_name};
use crate::text;
use crate::text::{concat, find_char};
use crate::url;
use crate::url::{is_parsable, Url, UrlError};

verus! {

/// What a link points to.
#[derive(Debug, PartialEq, Eq, Hash)]
pub enum Link {
    /// A document on the web.
    Url(Url),
    /// A document in the file system.
    Path(String),
}

/// A link as a mathematical value.
pub enum LinkView {
    Url(url::UrlParts),
    Path(Seq<char>),
}

impl View for Link {
    type V = LinkView;

    open spec fn view(&self) -> LinkView {
        match self {
            Link::Url(url) => LinkView::Url(url@),
            Link::Path(path) => LinkView::Path(path@),
        }
    }
}

/// What stands before the first `#`, and what stands behind it if there is one.
pub open spec fn split_at_hash(s: Seq<char>) -> (Seq<char>, Option<Seq<char>>) {
    let n = text::first_index(s, '#');
    if n < s.len() {
        (s.take(n), Some(s.skip(n + 1)))
    } else {
        (s, None)
    }
}

impl LinkView {
    /// The link as text.
    pub open spec fn text(self) -> Seq<char> {
        match self {
            LinkView::Url(url) => url.text(),
            LinkView::Path(path) => path,
        }
    }

    /// The link without its fragment.
    pub open spec fn base(self) -> LinkView {
        match self {
            LinkView::Url(url) => LinkView::Url(url.without_fragment()),
            LinkView::Path(path) => LinkView::Path(split_at_hash(path).0),
        }
    }

    /// The fragment.
    pub open spec fn fragment(self) -> Option<Seq<char>> {
        match self {
            LinkView::Url(url) => url.fragment,
            LinkView::Path(path) => split_at_hash(path).1,
        }
    }

    /// What holds of every link: a URL is well-formed.
    pub open spec fn wf(self) -> bool {
        self matches LinkView::Url(url) ==> url.wf()
    }
}

/// Whether a link is a fragment only, which points into the document that holds it.
pub open spec fn is_fragment_only(link: Seq<char>) -> bool {
    link.len() > 0 && link[0] == '#'
}

/// Whether a link can be parsed that stands in the document `origin`: its host can be
/// encoded if it is a URL, and `origin` has a file name if it is a fragment only.
pub open spec fn can_be_parsed(link: Seq<char>, origin: Seq<char>) -> bool {
    url::can_be_encoded(link) && (is_fragment_only(link) ==> path::spec_file_name(
        origin,
    ) is Some)
}

/// A link can be parsed exactly when its host can be encoded if it is a URL, and the
/// document that it stands in has a file name if it begins with `#`.
pub proof fn parsable_unless_document_has_no_name(link: Seq<char>, origin: Seq<char>)
    ensures
        can_be_parsed(link, origin) <==> url::can_be_encoded(link) && !(link.len() > 0 && link[0]
            == '#' && path::spec_file_name(origin) is None),
{
}

/// The path that a link without scheme points to, where it stands in the document
/// `origin`. An absolute link is taken from the directory `root`, any other from
/// the directory of `origin`.
pub open spec fn resolved_path(link: Seq<char>, origin: Seq<char>, root: Seq<char>) -> Seq<char> {
    if path::spec_is_absolute(link) {
        path::spec_join(root, path::spec_as_relative(link))
    } else if is_fragment_only(link) {
        path::spec_with_file_name(origin, path::spec_file_name(origin)->0 + link)
    } else {
        path::spec_with_file_name(origin, link)
    }
}

/// What a link points to, given what parsing it as a URL gave.
pub open spec fn parsed_link(
    parsed: Result<url::UrlParts, UrlError>,
    link: Seq<char>,
    origin: Seq<char>,
    root: Seq<char>,
) -> Result<LinkView, UrlError> {
    match parsed {
        Ok(url) => Ok(LinkView::Url(url)),
        Err(UrlError::RelativeUrlWithoutBase) => Ok(
            LinkView::Path(resolved_path(link, origin, root)),
        ),
        Err(err) => Err(err),
    }
}

/// What the link points to that stands in the document `origin`.
pub open spec fn spec_parse_with_root(
    link: Seq<char>,
    origin: Seq<char>,
    root: Seq<char>,
) -> Result<LinkView, UrlError> {
    parsed_link(url::spec_parse(link), link, origin, root)
}

/// The view of a link that was parsed, or the error.
pub open spec fn link_result(res: Result<Link, UrlError>) -> Result<LinkView, UrlError> {
    match res {
        Ok(link) => Ok(link@),
        Err(err) => Err(err),
    }
}

/// The view of an optional text.
pub open spec fn opt_view(opt: Option<String>) -> Option<Seq<char>> {
    match opt {
        Some(s) => Some(s@),
        None => None,
    }
}

/// A text is split at its first `#`: what stands before holds none, and the two parts with
/// the `#` between them are the whole. A text without `#` is not split.
pub proof fn text_is_split_at_first_hash(s: Seq<char>)
    ensures
        !split_at_hash(s).0.contains('#'),
        match split_at_hash(s).1 {
            Some(fragment) => s == split_at_hash(s).0 + seq!['#'] + fragment,
            None => s == split_at_hash(s).0,
        },
        split_at_hash(s).1 is Some <==> s.contains('#'),
{
    text::lemma_first_index(s, '#');
    let n = text::first_index(s, '#');
    if n < s.len() {
        let before = s.take(n);
        assert(s =~= before + seq!['#'] + s.skip(n + 1));
        assert forall|i: int| 0 <= i < before.len() implies before[i] != '#' by {
            assert(before[i] == s[i]);
        }
    }
}

/// The fragment of a URL is the one that it was parsed with, and the base has the same
/// scheme and the same text up to there. A path is split as a text.
pub proof fn links_are_split_by_their_kind(url: url::UrlParts, path: Seq<char>)
    ensures
        LinkView::Url(url).fragment() == url.fragment,
        LinkView::Url(url).base() is Url,
        LinkView::Url(url).base()->Url_0.scheme == url.scheme,
        LinkView::Url(url).base()->Url_0.base == url.base,
        LinkView::Url(url).base()->Url_0.fragment is None,
        LinkView::Path(path).fragment() == split_at_hash(path).1,
        LinkView::Path(path).base() == LinkView::Path(split_at_hash(path).0),
        LinkView::Path(path).text() == path,
        LinkView::Url(url).text() == match url.fragment {
            Some(fragment) => url.base + seq!['#'] + fragment,
            None => url.base,
        },
{
}

/// Splitting a link loses nothing: its text is that of the base, followed by `#`
/// and the fragment where there is one. Where there is none, the base is the link. The
/// base of a URL is a URL, and that of a path is a path.
pub proof fn split_rejoins(link: LinkView)
    ensures
        match link.fragment() {
            Some(fragment) => link.text() == link.base().text() + seq!['#'] + fragment,
            None => link.base() == link,
        },
        link.base() is Url <==> link is Url,
{
    if let LinkView::Path(path) = link {
        text::lemma_first_index(path, '#');
        let n = text::first_index(path, '#');
        if n < path.len() {
            assert(path =~= path.take(n) + seq!['#'] + path.skip(n + 1));
        }
    }
}

/// The base of a link has no fragment, and is its own base.
pub proof fn base_has_no_fragment(link: LinkView)
    ensures
        link.base().fragment() is None,
        link.base().base() == link.base(),
{
    if let LinkView::Path(path) = link {
        text::lemma_first_index(path, '#');
        let n = text::first_index(path, '#');
        let before = split_at_hash(path).0;
        text::lemma_first_index_unique(before, '#', before.len() as int);
    }
}

/// The base of a link holds no `#`, so what follows the first `#` of a link is its
/// fragment. The base is a link again.
pub proof fn base_holds_no_hash(link: LinkView)
    requires
        link.wf(),
    ensures
        !link.base().text().contains('#'),
        link.base().wf(),
        split_at_hash(link.text()) == (link.base().text(), link.fragment()),
{
    split_rejoins(link);
    text::lemma_first_index(link.text(), '#');
    let base = link.base().text();
    match link {
        LinkView::Path(path) => {
            text::lemma_first_index(path, '#');
        },
        LinkView::Url(url) => {
            assert forall|i: int| 0 <= i < base.len() implies base[i] != '#' by {
                assert(base.contains(base[i]));
            }
            text::lemma_first_index_unique(link.text(), '#', base.len() as int);
            if let Some(fragment) = url.fragment {
                assert(link.text().take(base.len() as int) =~= base);
                assert(link.text().skip(base.len() as int + 1) =~= fragment);
            }
        },
    }
}

/// The text of a URL that names a host on the web is a link to that URL, whatever
/// document it stands in. Only a host with encoded labels may be refused.
pub proof fn text_of_url_is_link_to_it(url: url::UrlParts, origin: Seq<char>, root: Seq<char>)
    requires
        url.wf(),
        url.has_web_host(),
        url::can_be_encoded(url.text()),
    ensures
        match spec_parse_with_root(url.text(), origin, root) {
            Ok(link) => link == LinkView::Url(url),
            Err(err) => err == UrlError::IdnaError && host::has_encoded_label(url.host()),
        },
{
}

/// The file name of a path is a plain name.
proof fn lemma_file_name_is_plain(p: Seq<char>)
    requires
        path::spec_file_name(p) is Some,
    ensures
        path::is_plain_name(path::spec_file_name(p)->0),
{
    let t = path::trimmed_end(p);
    let n = t.len() as int;
    path::lemma_trimmed_end(p);
    path::lemma_component_start(t, n);
    let c = path::component_start(t, n);
    let name = t.skip(c);
    path::lemma_trimmed_end(t.drop_last());
    assert(path::trimmed_end(t) == t);
    assert(t[n - 1] != '/');
    assert(c < n) by {
        if c == n {
            assert(t[c - 1] == '/');
        }
    }
    assert forall|i: int| 0 <= i < name.len() implies name[i] != '/' by {
        assert(name[i] == t[c + i]);
    }
    if name == seq!['.'] {
        assert(name.len() == 1 && name[0] == '.');
        assert(t[n - 1] == '.');
        assert(c == n - 1);
        assert(c == path::body_start(t) || t[n - 2] == '/');
    }
}

/// The path of a directory, or of the parent of a file, is free of `#` if the whole is.
proof fn lemma_parent_has_no_hash(p: Seq<char>)
    requires
        !p.contains('#'),
    ensures
        !path::parent(p).contains('#'),
        path::spec_file_name(p) is Some ==> !(path::spec_file_name(p)->0).contains('#'),
{
    let t = path::trimmed_end(p);
    path::lemma_trimmed_end(p);
    let c = path::component_start(t, t.len() as int);
    if path::body_start(t) <= t.len() {
        path::lemma_component_start(t, t.len() as int);
    }
    let front = t.take(c);
    path::lemma_trimmed_end(front);
    let dir = path::parent(p);
    assert forall|i: int| 0 <= i < t.len() implies t[i] != '#' by {
        assert(t[i] == p[i]);
        assert(p.contains(p[i]));
    }
    assert forall|i: int| 0 <= i < dir.len() implies dir[i] != '#' by {
        assert(dir[i] == front[i]);
        assert(front[i] == t[i]);
    }
    let name = t.skip(c);
    assert forall|i: int| 0 <= i < name.len() implies name[i] != '#' by {
        assert(name[i] == t[c + i]);
    }
}

/// Where a name with a fragment replaces the file name, the split gives the path with
/// that name, and the fragment.
proof fn lemma_split_with_file_name(origin: Seq<char>, name: Seq<char>, fragment: Seq<char>)
    requires
        !origin.contains('#'),
        !name.contains('#'),
        name.len() > 0,
        !path::spec_is_absolute(name),
    ensures
        split_at_hash(path::spec_with_file_name(origin, name + seq!['#'] + fragment)) == (
            path::spec_with_file_name(origin, name),
            Some(fragment),
        ),
{
    lemma_parent_has_no_hash(origin);
    let dir = if path::spec_file_name(origin) is Some {
        path::parent(origin)
    } else {
        origin
    };
    let base = path::spec_join(dir, name);
    let full = path::spec_join(dir, name + seq!['#'] + fragment);
    assert(full =~= base + seq!['#'] + fragment);
    assert forall|i: int| 0 <= i < base.len() implies base[i] != '#' by {
        if i < dir.len() {
            assert(dir.contains(dir[i]));
        } else if i >= base.len() - name.len() {
            assert(name.contains(name[i - (base.len() - name.len())]));
        }
    }
    text::lemma_first_index_unique(full, '#', base.len() as int);
    assert(full.take(base.len() as int) =~= base);
    assert(full.skip(base.len() as int + 1) =~= fragment);
}

/// A fragment alone points into the document that it stands in: to the file of
/// that name in that directory, and to that fragment. (In a document whose own path
/// holds a `#`, the path is split there.)
pub proof fn fragment_points_into_origin(
    fragment: Seq<char>,
    origin: Seq<char>,
    root: Seq<char>,
)
    requires
        path::spec_file_name(origin) is Some,
        !origin.contains('#'),
    ensures
        ({
            let name = path::spec_file_name(origin)->0;
            let res = spec_parse_with_root(seq!['#'] + fragment, origin, root);
            &&& res is Ok
            &&& res->Ok_0.fragment() == Some(fragment)
            &&& res->Ok_0.base() == LinkView::Path(path::spec_with_file_name(origin, name))
            &&& path::spec_file_name(path::spec_with_file_name(origin, name)) == Some(name)
            &&& path::parent(path::spec_with_file_name(origin, name)) == path::parent(origin)
        }),
{
    let link = seq!['#'] + fragment;
    let name = path::spec_file_name(origin)->0;
    assert(link[0] == '#');
    lemma_file_name_is_plain(origin);
    path::with_file_name_sets_file_name(origin, name);
    lemma_parent_has_no_hash(origin);
    assert(!path::spec_is_absolute(name)) by {
        if path::spec_is_absolute(name) {
            assert(name.contains(name[0]));
        }
    }
    lemma_split_with_file_name(origin, name, fragment);
    assert(name + link =~= name + seq!['#'] + fragment);
}

/// The fragment of a link to a file does not change which file it points to: with a
/// fragment it points to the file that it points to without, and to the fragment. (In
/// a document whose own path holds a `#`, the path is split there.)
pub proof fn fragment_does_not_change_document(
    name: Seq<char>,
    fragment: Seq<char>,
    origin: Seq<char>,
    root: Seq<char>,
)
    requires
        name.len() > 0,
        !name.contains('#'),
        !path::spec_is_absolute(name),
        url::spec_parse(name) == Err::<url::UrlParts, UrlError>(UrlError::RelativeUrlWithoutBase),
        url::spec_parse(name + seq!['#'] + fragment) == Err::<url::UrlParts, UrlError>(
            UrlError::RelativeUrlWithoutBase,
        ),
        !origin.contains('#'),
    ensures
        ({
            let with = spec_parse_with_root(name + seq!['#'] + fragment, origin, root);
            let without = spec_parse_with_root(name, origin, root);
            &&& with is Ok && without is Ok
            &&& with->Ok_0.base() == without->Ok_0
            &&& with->Ok_0.fragment() == Some(fragment)
            &&& without->Ok_0.fragment() is None
        }),
{
    let link = name + seq!['#'] + fragment;
    assert(link[0] == name[0]);
    assert(name[0] != '#') by {
        assert(name.contains(name[0]));
    }
    lemma_split_with_file_name(origin, name, fragment);
    let full = path::spec_with_file_name(origin, link);
    base_has_no_fragment(LinkView::Path(full));
}

/// A link is a URL exactly when it is parsed as one, and is then that URL. It is refused
/// exactly when it is refused as a URL for another reason than that it is relative, and
/// for that reason. In all other cases it is a path.
pub proof fn link_is_what_it_is_parsed_as(
    parsed: Result<url::UrlParts, UrlError>,
    link: Seq<char>,
    origin: Seq<char>,
    root: Seq<char>,
)
    ensures
        match (parsed, parsed_link(parsed, link, origin, root)) {
            (Ok(url), res) => res is Ok && res->Ok_0 == LinkView::Url(url),
            (Err(UrlError::RelativeUrlWithoutBase), res) => res is Ok && res->Ok_0
                == LinkView::Path(resolved_path(link, origin, root)),
            (Err(err), res) => res is Err && res->Err_0 == err,
        },
        spec_parse_with_root(link, origin, root) == parsed_link(
            url::spec_parse(link),
            link,
            origin,
            root,
        ),
{
}

/// Links and what was parsed are seen as they are.
pub proof fn links_are_seen_as_they_are(
    link: Link,
    res: Result<Link, UrlError>,
    opt: Option<String>,
)
    ensures
        match (link, link@) {
            (Link::Url(url), LinkView::Url(parts)) => parts == url@,
            (Link::Path(path), LinkView::Path(text)) => text == path@,
            _ => false,
        },
        match (res, link_result(res)) {
            (Ok(link), Ok(view)) => view == link@,
            (Err(err), Err(other)) => err == other,
            _ => false,
        },
        opt is None <==> opt_view(opt) is None,
        opt is Some ==> opt_view(opt) == Some(opt->0@),
{
}

/// A relative link points into the directory of the document that it stands in: the parts
/// of the path are those of the directory, followed by those of the link. A `.` that the
/// link begins with is left out, unless the directory is the empty path. The text of the
/// path is that of the directory and that of the link, with a separator between them where
/// one is needed. Where the document has no file name, it is itself the directory.
pub proof fn relative_link_points_into_directory(
    link: Seq<char>,
    origin: Seq<char>,
    root: Seq<char>,
)
    requires
        !(link.len() > 0 && (link[0] == '/' || link[0] == '#')),
    ensures
        ({
            let res = spec_parse_with_root(link, origin, root);
            let r = resolved_path(link, origin, root);
            let dir = if path::spec_file_name(origin) is Some {
                path::parent(origin)
            } else {
                origin
            };
            let parts = path::components(link);
            &&& url::spec_parse(link) is Err && url::spec_parse(link)->Err_0
                == UrlError::RelativeUrlWithoutBase ==> res is Ok && res->Ok_0 == LinkView::Path(r)
            &&& dir.is_prefix_of(r)
            &&& link.is_suffix_of(r)
            &&& dir.len() == 0 || dir.last() == '/' ==> r.len() == dir.len() + link.len()
            &&& dir.len() > 0 && dir.last() != '/' ==> r.len() == dir.len() + 1 + link.len()
                && r[dir.len() as int] == '/'
            &&& dir.len() == 0 ==> path::components(r) == parts
            &&& dir.len() > 0 && parts.len() > 0 && parts[0] is Current ==> path::components(r)
                == path::components(dir) + parts.skip(1)
            &&& dir.len() > 0 && !(parts.len() > 0 && parts[0] is Current) ==> path::components(r)
                == path::components(dir) + parts
        }),
{
    let dir = if path::spec_file_name(origin) is Some {
        path::parent(origin)
    } else {
        origin
    };
    path::join_keeps_both_texts(dir, link);
    path::join_puts_components_together(dir, link);
    path::names_are_names(link);
    let parts = path::components(link);
    if parts.len() > 0 && parts[0] is Current {
        assert(parts.skip(1) =~= path::names(link));
    }
}

/// A fragment alone points into the document that it stands in: the text of the path is
/// that of the directory, the file name and the `#` with the fragment, with a separator
/// behind the directory where one is needed.
pub proof fn fragment_is_added_to_file_name(link: Seq<char>, origin: Seq<char>, root: Seq<char>)
    requires
        link.len() > 0 && link[0] == '#',
        path::spec_file_name(origin) is Some,
    ensures
        ({
            let res = spec_parse_with_root(link, origin, root);
            let r = resolved_path(link, origin, root);
            let dir = path::parent(origin);
            let tail = path::spec_file_name(origin)->0 + link;
            &&& res is Ok && res->Ok_0 == LinkView::Path(r)
            &&& dir.is_prefix_of(r)
            &&& tail.is_suffix_of(r)
            &&& dir.len() == 0 || dir.last() == '/' ==> r.len() == dir.len() + tail.len()
            &&& dir.len() > 0 && dir.last() != '/' ==> r.len() == dir.len() + 1 + tail.len()
                && r[dir.len() as int] == '/'
        }),
{
    let name = path::spec_file_name(origin)->0;
    lemma_file_name_is_plain(origin);
    assert((name + link)[0] == name[0]);
    assert(name[0] != '/') by {
        assert(name.contains(name[0]));
    }
    path::join_keeps_both_texts(path::parent(origin), name + link);
}

/// An absolute link points below the root directory: the parts of the path are those of
/// the root directory, followed by those of the link without its own root.
pub proof fn absolute_link_points_below_root(link: Seq<char>, origin: Seq<char>, root: Seq<char>)
    requires
        link.len() > 0 && link[0] == '/',
    ensures
        ({
            let res = spec_parse_with_root(link, origin, root);
            let r = resolved_path(link, origin, root);
            let below = path::spec_as_relative(link);
            &&& res is Ok && res->Ok_0 == LinkView::Path(r)
            &&& root.is_prefix_of(r)
            &&& below.is_suffix_of(r)
            &&& root.len() == 0 || root.last() == '/' ==> r.len() == root.len() + below.len()
            &&& root.len() > 0 && root.last() != '/' ==> r.len() == root.len() + 1 + below.len()
                && r[root.len() as int] == '/'
            &&& root.len() > 0 ==> path::components(r) == path::components(root)
                + path::components(link).skip(1)
            &&& root.len() == 0 ==> path::components(r) == path::components(link).skip(1)
        }),
{
    let below = path::spec_as_relative(link);
    path::as_relative_keeps_components(link);
    path::as_relative_is_relative(link);
    path::as_relative_is_a_piece(link);
    path::join_keeps_both_texts(root, below);
    path::join_puts_components_together(root, below);
    path::components_are_names_behind_root(below);
}

/// The root directory plays no part in a link that is no absolute path, and the document
/// that a link stands in plays none if it is an absolute path or a URL.
pub proof fn root_or_origin_plays_no_part(
    link: Seq<char>,
    origin: Seq<char>,
    other_origin: Seq<char>,
    root: Seq<char>,
    other_root: Seq<char>,
)
    ensures
        !path::spec_is_absolute(link) ==> spec_parse_with_root(link, origin, root)
            == spec_parse_with_root(link, origin, other_root),
        path::spec_is_absolute(link) ==> spec_parse_with_root(link, origin, root)
            == spec_parse_with_root(link, other_origin, root),
        url::spec_parse(link) != Err::<url::UrlParts, UrlError>(UrlError::RelativeUrlWithoutBase)
            ==> spec_parse_with_root(link, origin, root) == spec_parse_with_root(
            link,
            other_origin,
            other_root,
        ),
{
}

/// An absolute path is taken from the root directory, and stays below it.
pub proof fn absolute_path_stays_below_root(
    link: Seq<char>,
    origin: Seq<char>,
    root: Seq<char>,
)
    requires
        path::spec_is_absolute(link),
    ensures
        ({
            let res = spec_parse_with_root(link, origin, root);
            &&& res is Ok
            &&& res->Ok_0 is Path
            &&& root.is_prefix_of(res->Ok_0.text())
        }),
{
    path::relative_stays_below(root, link);
}

/// What stands before the first `#` and what stands behind it, if there is a `#`.
pub fn split_fragment(path: &str) -> (res: Option<(&str, &str)>)
    ensures
        match res {
            Some((before, behind)) => split_at_hash(path@) == (before@, Some(behind@)),
            None => split_at_hash(path@) == (path@, None::<Seq<char>>),
        },
        res is Some <==> path@.contains('#'),
{
    proof {
        text::lemma_first_index(path@, '#');
    }
    match find_char(path, '#') {
        Some(pos) => {
            let n = path.unicode_len();
            assert(path@.subrange(pos + 1, n as int) == path@.skip(pos + 1));
            Some((path.substring_char(0, pos), path.substring_char(pos + 1, n)))
        },
        None => None,
    }
}

/// The path before the first `#`, and the fragment behind it if there is one.
pub fn split_path_fragment(path: &str) -> (res: (&str, Option<&str>))
    ensures
        res.0@ == split_at_hash(path@).0,
        match res.1 {
            Some(fragment) => split_at_hash(path@).1 == Some(fragment@),
            None => split_at_hash(path@).1 is None,
        },
{
    match split_fragment(path) {
        Some((path, fragment)) => (path, Some(fragment)),
        None => (path, None),
    }
}

/// The URL, and its fragment if there is one.
pub fn split_url_fragment(url: &Url) -> (res: (&Url, Option<&str>))
    ensures
        res.0 == url,
        match res.1 {
            Some(fragment) => url@.fragment == Some(fragment@),
            None => url@.fragment is None,
        },
{
    (url, url.fragment())
}

/// An owned copy of an optional text.
fn own(opt: Option<&str>) -> (res: Option<String>)
    ensures
        match opt {
            Some(s) => opt_view(res) == Some(s@),
            None => res is None,
        },
{
    match opt {
        Some(s) => Some(s.to_owned()),
        None => None,
    }
}

/// Whether a link can be parsed that stands in the document `origin`.
pub fn is_link_parsable(link: &str, origin: &str) -> (res: bool)
    ensures
        res == can_be_parsed(link@, origin@),
{
    if !link.is_empty() && link.get_char(0) == '#' && file_name(origin).is_none() {
        return false;
    }
    is_parsable(link)
}

impl Link {
    /// The link without its fragment, and the fragment.
    pub fn split_fragment(&self) -> (res: (Link, Option<String>))
        ensures
            res.0@ == self@.base(),
            opt_view(res.1) == self@.fragment(),
            self@.wf() ==> res.0@.wf() && !res.0@.text().contains('#'),
    {
        proof {
            if self@.wf() {
                base_holds_no_hash(self@);
            }
        }
        match self {
            Link::Path(path) => {
                let (path, fragment) = split_path_fragment(path);
                (Link::Path(path.to_owned()), own(fragment))
            },
            Link::Url(url) => {
                let (url, fragment) = split_url_fragment(url);
                (Link::Url(url.without_fragment()), own(fragment))
            },
        }
    }

    /// What the link points to that stands in the document `origin`, given what
    /// parsing it as a URL gave.
    pub fn from_parsed(
        parsed: Result<Url, UrlError>,
        link: &str,
        origin: &str,
        root: &str,
    ) -> (res: Result<Link, UrlError>)
        requires
            parsed is Err && parsed->Err_0 == UrlError::RelativeUrlWithoutBase && is_fragment_only(
                link@,
            ) ==> path::spec_file_name(origin@) is Some,
        ensures
            link_result(res) == parsed_link(url::url_result(parsed), link@, origin@, root@),
    {
        match parsed {
            Ok(url) => Ok(Link::Url(url)),
            Err(UrlError::RelativeUrlWithoutBase) => {
                if is_absolute(link) {
                    return Ok(Link::Path(join(root, as_relative(link))));
                }
                if !link.is_empty() && link.get_char(0) == '#' {
                    let name = file_name(origin).unwrap();
                    Ok(Link::Path(with_file_name(origin, &concat(name, link))))
                } else {
                    Ok(Link::Path(with_file_name(origin, link)))
                }
            },
            Err(err) => Err(err),
        }
    }

    /// What the link points to that stands in the document `origin`. An absolute
    /// path is taken from the directory `root`. A fragment alone points into
    /// `origin`, which must then have a file name.
    pub fn parse_with_root(link: &str, origin: &str, root: &str) -> (res: Result<Link, UrlError>)
        requires
            can_be_parsed(link@, origin@),
        ensures
            link_result(res) == spec_parse_with_root(link@, origin@, root@),
            res is Ok ==> res->Ok_0@.wf(),
    {
        Link::from_parsed(Url::parse(link), link, origin, root)
    }

    /// What the link points to that stands in the document `origin`, or `None` if it is
    /// a fragment alone and `origin` has no file name, or if it is a URL with a host that
    /// cannot be encoded.
    pub fn try_parse_with_root(link: &str, origin: &str, root: &str) -> (res: Option<
        Result<Link, UrlError>,
    >)
        ensures
            res is Some <==> can_be_parsed(link@, origin@),
            res is Some ==> link_result(res->0) == spec_parse_with_root(link@, origin@, root@),
            res is Some && res->0 is Ok ==> res->0->Ok_0@.wf(),
    {
        if is_link_parsable(link, origin) {
            Some(Link::parse_with_root(link, origin, root))
        } else {
            None
        }
    }

    /// The link as text.
    pub fn text(&self) -> (res: String)
        ensures
            res@ == self@.text(),
    {
        match self {
            Link::Url(url) => url.text(),
            Link::Path(path) => path.clone(),
        }
    }
}

impl Clone for Link {
    fn clone(&self) -> (res: Link)
        ensures
            res@ == self@,
    {
        match self {
            Link::Url(url) => Link::Url(url.clone()),
            Link::Path(path) => Link::Path(path.clone()),
        }
    }
}

} // verus!
