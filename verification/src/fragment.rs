//! Looking up a fragment among the anchors of a document.
use vstd::prelude::*;
use vstd::string::*;
use crate::errors::{Error, ErrorKind, FragmentError, LookupError, PrefixError};
use crate::tag::Tag;
use crate::text;
use crate::text::{concat, same_text};

verus! {

/// What a fragment is to the anchors of a document.
pub enum Lookup {
    /// It names an anchor.
    Found,
    /// It names an anchor behind this prefix only.
    Prefixed(Seq<char>),
    /// It names no anchor.
    Missing,
}

/// The first prefix with which the fragment names an anchor.
pub open spec fn first_prefix(
    ids: Seq<Seq<char>>,
    fragment: Seq<char>,
    prefixes: Seq<Seq<char>>,
) -> Option<Seq<char>>
    decreases prefixes.len(),
{
    if prefixes.len() == 0 {
        None
    } else if ids.contains(prefixes[0] + fragment) {
        Some(prefixes[0])
    } else {
        first_prefix(ids, fragment, prefixes.skip(1))
    }
}

/// What the fragment is to the anchors `ids`, given the known prefixes.
pub open spec fn lookup(
    ids: Seq<Seq<char>>,
    fragment: Seq<char>,
    prefixes: Seq<Seq<char>>,
) -> Lookup {
    if ids.contains(fragment) {
        Lookup::Found
    } else {
        match first_prefix(ids, fragment, prefixes) {
            Some(prefix) => Lookup::Prefixed(prefix),
            None => Lookup::Missing,
        }
    }
}

/// Whether `err` is a failure of the given kind that nothing else caused.
pub open spec fn is_plain_failure(err: Error, kind: ErrorKind) -> bool {
    err is Lookup && err->Lookup_0.kind == kind && err->Lookup_0.cause is None
}

/// Whether `res` reports what the fragment is to the anchors of the document.
pub open spec fn reports(
    res: Result<(), (Tag, FragmentError)>,
    fragment: Seq<char>,
    found: Lookup,
) -> bool {
    match found {
        Lookup::Found => res is Ok,
        Lookup::Prefixed(prefix) => {
            &&& res is Err
            &&& res->Err_0.0@ == Err::<(), ErrorKind>(ErrorKind::Prefixed)
            &&& res->Err_0.1.fragment@ == fragment
            &&& *res->Err_0.1.cause is Prefix
            &&& res->Err_0.1.cause->Prefix_0.prefix@ == prefix
            &&& is_plain_failure(*res->Err_0.1.cause->Prefix_0.cause, ErrorKind::Prefixed)
        },
        Lookup::Missing => {
            &&& res is Err
            &&& res->Err_0.0@ == Err::<(), ErrorKind>(ErrorKind::NoFragment)
            &&& res->Err_0.1.fragment@ == fragment
            &&& is_plain_failure(*res->Err_0.1.cause, ErrorKind::NoFragment)
        },
    }
}

/// The first prefix is one of the known ones, makes the fragment name an anchor, and
/// no prefix before it does. Where there is none, no known prefix does.
pub proof fn first_prefix_is_first(
    ids: Seq<Seq<char>>,
    fragment: Seq<char>,
    prefixes: Seq<Seq<char>>,
)
    ensures
        match first_prefix(ids, fragment, prefixes) {
            Some(prefix) => exists|k: int|
                #![trigger prefixes[k]]
                {
                    &&& 0 <= k < prefixes.len()
                    &&& prefixes[k] == prefix
                    &&& ids.contains(prefix + fragment)
                    &&& forall|j: int|
                        0 <= j < k ==> !ids.contains(#[trigger] prefixes[j] + fragment)
                },
            None => forall|j: int|
                0 <= j < prefixes.len() ==> !ids.contains(#[trigger] prefixes[j] + fragment),
        },
    decreases prefixes.len(),
{
    if prefixes.len() > 0 && !ids.contains(prefixes[0] + fragment) {
        let rest = prefixes.skip(1);
        first_prefix_is_first(ids, fragment, rest);
        match first_prefix(ids, fragment, rest) {
            Some(prefix) => {
                let k = choose|k: int|
                    #![trigger rest[k]]
                    {
                        &&& 0 <= k < rest.len()
                        &&& rest[k] == prefix
                        &&& ids.contains(prefix + fragment)
                        &&& forall|j: int|
                            0 <= j < k ==> !ids.contains(#[trigger] rest[j] + fragment)
                    };
                assert(prefixes[k + 1] == prefix);
                assert forall|j: int| 0 <= j < k + 1 implies !ids.contains(
                    #[trigger] prefixes[j] + fragment,
                ) by {
                    if j > 0 {
                        assert(rest[j - 1] == prefixes[j]);
                    }
                }
            },
            None => {
                assert forall|j: int| 0 <= j < prefixes.len() implies !ids.contains(
                    #[trigger] prefixes[j] + fragment,
                ) by {
                    if j > 0 {
                        assert(rest[j - 1] == prefixes[j]);
                    }
                }
            },
        }
    } else if prefixes.len() > 0 {
        assert(prefixes[0] == first_prefix(ids, fragment, prefixes)->0);
    }
}

/// A fragment is found exactly when it is among the anchors. Else every known prefix is
/// tried, in order: the first one with which the fragment is among them is given, and the
/// fragment is missing exactly when there is none.
pub proof fn every_prefix_is_tried(
    ids: Seq<Seq<char>>,
    fragment: Seq<char>,
    prefixes: Seq<Seq<char>>,
)
    ensures
        lookup(ids, fragment, prefixes) is Found <==> ids.contains(fragment),
        lookup(ids, fragment, prefixes) is Missing <==> !ids.contains(fragment) && forall|k: int|
            0 <= k < prefixes.len() ==> !ids.contains(#[trigger] prefixes[k] + fragment),
        forall|k: int|
            0 <= k < prefixes.len() && !ids.contains(fragment) && ids.contains(
                #[trigger] prefixes[k] + fragment,
            ) && (forall|j: int|
                0 <= j < k ==> !ids.contains(#[trigger] prefixes[j] + fragment)) ==> lookup(
                ids,
                fragment,
                prefixes,
            ) == Lookup::Prefixed(prefixes[k]),
{
    first_prefix_is_first(ids, fragment, prefixes);
    assert forall|k: int|
        0 <= k < prefixes.len() && !ids.contains(fragment) && ids.contains(
            #[trigger] prefixes[k] + fragment,
        ) && (forall|j: int|
            0 <= j < k ==> !ids.contains(#[trigger] prefixes[j] + fragment)) implies lookup(
        ids,
        fragment,
        prefixes,
    ) == Lookup::Prefixed(prefixes[k]) by {
        let first = first_prefix(ids, fragment, prefixes);
        assert(first is Some);
        let n = choose|n: int|
            #![trigger prefixes[n]]
            {
                &&& 0 <= n < prefixes.len()
                &&& prefixes[n] == first->0
                &&& ids.contains(first->0 + fragment)
                &&& forall|j: int|
                    0 <= j < n ==> !ids.contains(#[trigger] prefixes[j] + fragment)
            };
        if n < k {
            assert(!ids.contains(prefixes[n] + fragment));
        } else if k < n {
            assert(!ids.contains(prefixes[k] + fragment));
        }
    }
}

/// What is reported: nothing of a fragment that is found. Else the tag tells whether it
/// was found behind a prefix, the error names the fragment, and so does its cause the
/// prefix; the last cause is a failure of the same kind.
pub proof fn report_says_what_was_found(
    res: Result<(), (Tag, FragmentError)>,
    fragment: Seq<char>,
    found: Lookup,
)
    requires
        reports(res, fragment, found),
    ensures
        res is Ok <==> found is Found,
        res is Err ==> res->Err_0.1.fragment@ == fragment,
        match found {
            Lookup::Found => true,
            Lookup::Prefixed(prefix) => {
                let cause = *res->Err_0.1.cause;
                let last = *cause->Prefix_0.cause;
                &&& res->Err_0.0@ == Err::<(), ErrorKind>(ErrorKind::Prefixed)
                &&& cause is Prefix
                &&& cause->Prefix_0.prefix@ == prefix
                &&& last is Lookup
                &&& last->Lookup_0.kind == ErrorKind::Prefixed
                &&& last->Lookup_0.cause is None
            },
            Lookup::Missing => {
                let cause = *res->Err_0.1.cause;
                &&& res->Err_0.0@ == Err::<(), ErrorKind>(ErrorKind::NoFragment)
                &&& cause is Lookup
                &&& cause->Lookup_0.kind == ErrorKind::NoFragment
                &&& cause->Lookup_0.cause is None
            },
        },
{
}

/// A fragment that is found only behind a prefix is found when the prefix is
/// written out.
pub proof fn prefixed_fragment_is_found(
    ids: Seq<Seq<char>>,
    fragment: Seq<char>,
    prefixes: Seq<Seq<char>>,
    other: Seq<Seq<char>>,
)
    requires
        lookup(ids, fragment, prefixes) is Prefixed,
    ensures
        lookup(ids, lookup(ids, fragment, prefixes)->Prefixed_0 + fragment, other) is Found,
{
    first_prefix_is_first(ids, fragment, prefixes);
}

/// Whether `s` is one of `ids`.
fn contains_text(ids: &[&str], s: &str) -> (res: bool)
    ensures
        res == text::str_views(ids@).contains(s@),
{
    let ghost all = text::str_views(ids@);
    let mut i: usize = 0;
    while i < ids.len()
        invariant
            i <= ids@.len(),
            all == text::str_views(ids@),
            forall|j: int| 0 <= j < i ==> all[j] != s@,
        decreases ids@.len() - i,
    {
        if same_text(ids[i], s) {
            assert(all[i as int] == s@);
            return true;
        }
        i = i + 1;
    }
    false
}

/// The first prefix with which the fragment names one of `ids`.
pub fn find_prefixed_fragment(ids: &[&str], fragment: &str, prefixes: &[&str]) -> (res: Option<
    String,
>)
    ensures
        match res {
            Some(prefix) => first_prefix(
                text::str_views(ids@),
                fragment@,
                text::str_views(prefixes@),
            ) == Some(prefix@),
            None => first_prefix(
                text::str_views(ids@),
                fragment@,
                text::str_views(prefixes@),
            ) is None,
        },
        res is None <==> forall|i: int, k: int|
            0 <= i < ids@.len() && 0 <= k < prefixes@.len() ==> #[trigger] ids@[i]@ != (
            #[trigger] prefixes@[k]@) + fragment@,
        res is Some ==> exists|i: int, k: int|
            {
                &&& 0 <= i < ids@.len()
                &&& 0 <= k < prefixes@.len()
                &&& (#[trigger] prefixes@[k])@ == res->0@
                &&& (#[trigger] ids@[i])@ == res->0@ + fragment@
                &&& forall|h: int, j: int|
                    0 <= h < ids@.len() && 0 <= j < k ==> #[trigger] ids@[h]@ != (
                    #[trigger] prefixes@[j]@) + fragment@
            },
{
    proof {
        lemma_prefix_among_strs(ids@, fragment@, prefixes@);
    }
    let ghost all = text::str_views(prefixes@);
    let ghost ids_view = text::str_views(ids@);
    let mut i: usize = 0;
    assert(all.skip(0) == all);
    while i < prefixes.len()
        invariant
            i <= prefixes@.len(),
            all == text::str_views(prefixes@),
            ids_view == text::str_views(ids@),
            first_prefix(ids_view, fragment@, all) == first_prefix(
                ids_view,
                fragment@,
                all.skip(i as int),
            ),
        decreases prefixes@.len() - i,
    {
        let ghost rest = all.skip(i as int);
        assert(rest[0] == prefixes@[i as int]@);
        if contains_text(ids, &concat(prefixes[i], fragment)) {
            proof {
                lemma_prefix_among_strs(ids@, fragment@, prefixes@);
            }
            return Some(prefixes[i].to_owned());
        }
        assert(rest.skip(1) == all.skip(i + 1));
        i = i + 1;
    }
    None
}

/// The first prefix, told by the strings themselves.
proof fn lemma_prefix_among_strs(ids: Seq<&str>, fragment: Seq<char>, prefixes: Seq<&str>)
    ensures
        ({
            let first = first_prefix(text::str_views(ids), fragment, text::str_views(prefixes));
            &&& first is None <==> forall|i: int, k: int|
                0 <= i < ids.len() && 0 <= k < prefixes.len() ==> #[trigger] ids[i]@ != (
                #[trigger] prefixes[k]@) + fragment
            &&& first is Some ==> exists|i: int, k: int|
                {
                    &&& 0 <= i < ids.len()
                    &&& 0 <= k < prefixes.len()
                    &&& (#[trigger] prefixes[k])@ == first->0
                    &&& (#[trigger] ids[i])@ == first->0 + fragment
                    &&& forall|h: int, j: int|
                        0 <= h < ids.len() && 0 <= j < k ==> #[trigger] ids[h]@ != (
                        #[trigger] prefixes[j]@) + fragment
                }
        }),
{
    let texts = text::str_views(ids);
    let all = text::str_views(prefixes);
    let first = first_prefix(texts, fragment, all);
    first_prefix_is_first(texts, fragment, all);
    assert forall|i: int| 0 <= i < ids.len() implies texts.contains(#[trigger] ids[i]@) by {
        assert(texts[i] == ids[i]@);
    }
    assert forall|k: int| 0 <= k < prefixes.len() implies all[k] == #[trigger] prefixes[k]@ by {}
    if first is Some {
        let k = choose|k: int|
            #![trigger all[k]]
            {
                &&& 0 <= k < all.len()
                &&& all[k] == first->0
                &&& texts.contains(first->0 + fragment)
                &&& forall|j: int| 0 <= j < k ==> !texts.contains(#[trigger] all[j] + fragment)
            };
        let i = choose|i: int| 0 <= i < texts.len() && texts[i] == first->0 + fragment;
        assert(prefixes[k]@ == first->0);
        assert(ids[i]@ == first->0 + fragment);
        assert forall|h: int, j: int| 0 <= h < ids.len() && 0 <= j < k implies #[trigger] ids[h]@
            != (#[trigger] prefixes[j]@) + fragment by {
            assert(!texts.contains(all[j] + fragment));
        }
    } else {
        assert forall|i: int, k: int|
            0 <= i < ids.len() && 0 <= k < prefixes.len() implies #[trigger] ids[i]@ != (
        #[trigger] prefixes[k]@) + fragment by {
            assert(!texts.contains(all[k] + fragment));
        }
    }
}

/// Looks up a fragment among the anchors `ids` of a document. A fragment that names
/// none may still name one behind one of the known prefixes, and is then refused
/// with another tag.
pub fn lookup_fragment(ids: &[&str], fragment: &str, prefixes: &[&str]) -> (res: Result<
    (),
    (Tag, FragmentError),
>)
    ensures
        reports(
            res,
            fragment@,
            lookup(text::str_views(ids@), fragment@, text::str_views(prefixes@)),
        ),
        res is Ok <==> exists|i: int| 0 <= i < ids@.len() && (#[trigger] ids@[i])@ == fragment@,
        res is Err && (exists|i: int, k: int|
            0 <= i < ids@.len() && 0 <= k < prefixes@.len() && #[trigger] ids@[i]@ == (
            #[trigger] prefixes@[k]@) + fragment@) ==> res->Err_0.0@ == Err::<(), ErrorKind>(
            ErrorKind::Prefixed,
        ),
        res is Err && (forall|i: int, k: int|
            0 <= i < ids@.len() && 0 <= k < prefixes@.len() ==> #[trigger] ids@[i]@ != (
            #[trigger] prefixes@[k]@) + fragment@) ==> res->Err_0.0@ == Err::<(), ErrorKind>(
            ErrorKind::NoFragment,
        ),
{
    proof {
        let texts = text::str_views(ids@);
        assert forall|i: int| 0 <= i < ids@.len() implies texts[i] == #[trigger] ids@[i]@ by {}
        lemma_prefix_among_strs(ids@, fragment@, prefixes@);
    }
    if contains_text(ids, fragment) {
        return Ok(());
    }
    match find_prefixed_fragment(ids, fragment, prefixes) {
        Some(prefix) => {
            let err = LookupError::from_kind(ErrorKind::Prefixed);
            let cause = PrefixError::new(prefix, Error::Lookup(err));
            Err(
                (
                    Tag::from_error_kind(ErrorKind::Prefixed),
                    FragmentError::new(fragment.to_owned(), Error::Prefix(cause)),
                ),
            )
        },
        None => {
            let err = LookupError::from_kind(ErrorKind::NoFragment);
            Err(
                (
                    Tag::from_error_kind(ErrorKind::NoFragment),
                    FragmentError::new(fragment.to_owned(), Error::Lookup(err)),
                ),
            )
        },
    }
}

} // verus!
