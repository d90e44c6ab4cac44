//! Fetching the anchors of documents: what to do for a link, and what the answer of a
//! server means.
use vstd::prelude::*;
use vstd::string::*;
use std::rc::Rc;
use crate::anchor;
use crate::anchor::get_path_ids;
use crate::errors::{Error, ErrorKind, LinkError, LookupError, OtherError, UnrecognizedMime};
use crate::html;
use crate::html::{get_html_ids, has_readable_attributes};
use crate::id::GithubId;
use crate::link;
use crate::link::Link;
use crate::markdown;
use crate::path;
use crate::path::is_absolute;
use crate::resolve;
use crate::tag::Tag;
use crate::text;
use crate::text::same_text;

verus! {

/// A media type.
#[derive(Debug)]
pub struct Mime {
    /// The type, such as `text`.
    pub type_: String,
    /// The subtype, such as `html`.
    pub subtype: String,
    /// The whole media type with its parameters.
    pub text: String,
}

/// A media type as a mathematical value.
pub struct MimeView {
    pub type_: Seq<char>,
    pub subtype: Seq<char>,
    pub text: Seq<char>,
}

impl View for Mime {
    type V = MimeView;

    open spec fn view(&self) -> MimeView {
        MimeView { type_: self.type_@, subtype: self.subtype@, text: self.text@ }
    }
}

/// What `mime::Mime::from_str` makes of a text.
pub uninterp spec fn parsed_mime(text: Seq<char>) -> Option<MimeView>;

/// The media type that was parsed, if the text is one.
pub open spec fn mime_result(mime: Option<Mime>) -> Option<MimeView> {
    match mime {
        Some(mime) => Some(mime@),
        None => None,
    }
}

/// A media type is seen as it is.
pub proof fn mime_is_seen_as_it_is(mime: Mime)
    ensures
        mime_result(Some(mime)) is Some,
        mime_result(Some(mime))->0.type_ == mime.type_@,
        mime_result(Some(mime))->0.subtype == mime.subtype@,
        mime_result(Some(mime))->0.text == mime.text@,
        mime_result(None) is None,
{
}

/// Parses a text with `mime::Mime::from_str`, and takes the media type apart with `type_`,
/// `subtype` and `to_string`. The result is a function of the text.
#[verifier::external_body]
fn parse_mime(text: &str) -> (res: Option<Mime>)
    ensures
        mime_result(res) == parsed_mime(text@),
{
    match text.parse::<mime::Mime>() {
        Ok(mime) => Some(Mime {
            type_: mime.type_().as_str().to_string(),
            subtype: mime.subtype().as_str().to_string(),
            text: mime.to_string(),
        }),
        Err(_) => None,
    }
}

impl Mime {
    /// Parses a media type.
    pub fn parse(text: &str) -> (res: Option<Mime>)
        ensures
            mime_result(res) == parsed_mime(text@),
    {
        parse_mime(text)
    }
}

/// What the answer of a server says of itself.
#[derive(Debug)]
pub struct ResponseHead {
    pub status: u16,
    pub content_type: Option<Mime>,
}

impl ResponseHead {
    /// The beginning of an answer with this status and this text for the media type. A
    /// text that is no media type counts as none.
    pub fn new(status: u16, content_type: Option<&str>) -> (res: ResponseHead)
        ensures
            res.status == status,
            mime_result(res.content_type) == match content_type {
                Some(text) => parsed_mime(text@),
                None => None,
            },
    {
        let content_type = match content_type {
            Some(text) => Mime::parse(text),
            None => None,
        };
        ResponseHead { status, content_type }
    }
}

/// What to do next in order to find the anchors of a document.
#[derive(Debug)]
pub enum Step {
    /// Read the file.
    ReadFile,
    /// Ask the server for the document.
    Send,
    /// Read the body of the answer.
    ReadBody,
    /// Nothing; these are the anchors, or this is the failure.
    Done(Result<Vec<String>, LookupError>),
}

/// What came of a step, or the failure with its causes.
#[derive(Debug)]
pub enum Reply {
    /// The text of the file.
    File(Result<String, OtherError>),
    /// The beginning of the answer of the server.
    Response(Result<ResponseHead, OtherError>),
    /// The body of the answer.
    Body(Result<String, OtherError>),
}

/// Whether the step is to stop with a failure that nothing else caused.
pub open spec fn fails_with(step: Step, kind: ErrorKind) -> bool {
    &&& step is Done
    &&& step->Done_0 is Err
    &&& step->Done_0->Err_0.kind == kind
    &&& step->Done_0->Err_0.cause is None
}

/// Whether the step is to stop with a failure that has this cause.
pub open spec fn fails_because(step: Step, kind: ErrorKind, cause: Error) -> bool {
    &&& step is Done
    &&& step->Done_0 is Err
    &&& step->Done_0->Err_0.kind == kind
    &&& step->Done_0->Err_0.cause is Some
    &&& *step->Done_0->Err_0.cause->0 == cause
}

/// Whether the step is to stop with these anchors.
pub open spec fn succeeds_with(step: Step, ids: Seq<Seq<char>>) -> bool {
    step is Done && step->Done_0 is Ok && text::views(step->Done_0->Ok_0@) == ids
}

/// Whether the anchors of documents with this scheme can be fetched.
pub open spec fn is_supported_scheme(scheme: Seq<char>) -> bool {
    scheme == "http"@ || scheme == "https"@
}

/// Whether a status is one of success.
pub open spec fn is_success(status: u16) -> bool {
    200 <= status < 300
}

/// Whether the media type is that of HTML documents.
pub open spec fn is_html(mime: Mime) -> bool {
    mime.type_@ == "text"@ && mime.subtype@ == "html"@
}

/// The first step for a link: relative paths are read, URLs are asked for. Absolute
/// paths and other schemes than `http` and `https` are refused.
pub fn first_step(link: &Link) -> (res: Step)
    ensures
        match link@ {
            link::LinkView::Path(path) => if path::spec_is_absolute(path) {
                fails_with(res, ErrorKind::Absolute)
            } else {
                res is ReadFile
            },
            link::LinkView::Url(url) => if is_supported_scheme(url.scheme) {
                res is Send
            } else {
                fails_with(res, ErrorKind::Protocol)
            },
        },
        res is ReadFile <==> link@ is Path && !(link@->Path_0.len() > 0 && link@->Path_0[0] == '/'),
        res is Send <==> link@ is Url && (link@->Url_0.scheme == "http"@ || link@->Url_0.scheme
            == "https"@),
        res !is ReadBody,
        res is Done ==> {
            &&& res->Done_0 is Err
            &&& res->Done_0->Err_0.cause is None
            &&& link@ is Path ==> res->Done_0->Err_0.kind == ErrorKind::Absolute
            &&& link@ is Url ==> res->Done_0->Err_0.kind == ErrorKind::Protocol
        },
{
    match link {
        Link::Path(path) => {
            if is_absolute(path) {
                Step::Done(Err(LookupError::from_kind(ErrorKind::Absolute)))
            } else {
                Step::ReadFile
            }
        },
        Link::Url(url) => {
            if same_text(url.scheme(), "http") || same_text(url.scheme(), "https") {
                Step::Send
            } else {
                Step::Done(Err(LookupError::from_kind(ErrorKind::Protocol)))
            }
        },
    }
}

/// Whether `step` is what comes after the beginning of the answer of a server: the
/// status must be one of success, and the media type must be given and be that of
/// HTML, before the body is read.
pub open spec fn follows_response(head: ResponseHead, step: Step) -> bool {
    if !is_success(head.status) {
        fails_with(step, ErrorKind::HttpStatus(head.status))
    } else {
        match head.content_type {
            None => fails_with(step, ErrorKind::NoMime),
            Some(mime) => if is_html(mime) {
                step is ReadBody
            } else {
                exists|cause: UnrecognizedMime| #[trigger]
                    fails_because(
                        step,
                        ErrorKind::UnrecognizedMime,
                        Error::UnrecognizedMime(cause),
                    ) && cause.mime@ == mime.text@
            },
        }
    }
}

/// The body of an answer is read exactly if the status is one of success, from 200 to 299,
/// and the media type is `text/html`. Else the step stops with a failure: of any other
/// status first, then of a missing media type, then of any other media type, whose text
/// is the cause.
pub proof fn body_is_read_exactly_if_html(head: ResponseHead, step: Step)
    requires
        follows_response(head, step),
    ensures
        ({
            let is_success = 200 <= head.status <= 299;
            let mime = head.content_type;
            let is_html = mime is Some && mime->0.type_@ == "text"@ && mime->0.subtype@ == "html"@;
            &&& step is ReadBody <==> is_success && is_html
            &&& !(is_success && is_html) ==> step is Done && step->Done_0 is Err
            &&& !is_success ==> {
                &&& step->Done_0->Err_0.kind == ErrorKind::HttpStatus(head.status)
                &&& step->Done_0->Err_0.cause is None
            }
            &&& is_success && mime is None ==> {
                &&& step->Done_0->Err_0.kind == ErrorKind::NoMime
                &&& step->Done_0->Err_0.cause is None
            }
            &&& is_success && mime is Some && !is_html ==> {
                &&& step->Done_0->Err_0.kind == ErrorKind::UnrecognizedMime
                &&& step->Done_0->Err_0.cause is Some
                &&& *step->Done_0->Err_0.cause->0 is UnrecognizedMime
                &&& step->Done_0->Err_0.cause->0->UnrecognizedMime_0.mime@ == mime->0.text@
            }
        }),
{
}

/// The step after the beginning of the answer of a server.
pub fn response_step(head: &ResponseHead) -> (res: Step)
    ensures
        follows_response(*head, res),
{
    if head.status < 200 || head.status >= 300 {
        return Step::Done(Err(LookupError::from_kind(ErrorKind::HttpStatus(head.status))));
    }
    match &head.content_type {
        None => Step::Done(Err(LookupError::from_kind(ErrorKind::NoMime))),
        Some(mime) => {
            if same_text(&mime.type_, "text") && same_text(&mime.subtype, "html") {
                return Step::ReadBody;
            }
            let cause = UnrecognizedMime::new(mime.text.clone());
            let ghost witness = cause;
            let res = Step::Done(
                Err(
                    LookupError::caused_by(
                        ErrorKind::UnrecognizedMime,
                        Error::UnrecognizedMime(cause),
                    ),
                ),
            );
            assert(fails_because(
                res,
                ErrorKind::UnrecognizedMime,
                Error::UnrecognizedMime(witness),
            ));
            res
        },
    }
}

/// Whether `step` is what comes after a reply. A file is Markdown, and a body is HTML.
pub open spec fn follows(reply: Reply, step: Step) -> bool {
    match reply {
        Reply::File(Ok(buffer)) => succeeds_with(
            step,
            anchor::anchor_ids(
                GithubId,
                anchor::header_texts(markdown::markdown_events(buffer@), false),
            ),
        ),
        Reply::File(Err(cause)) => fails_because(step, ErrorKind::Io, Error::Other(cause)),
        Reply::Response(Ok(head)) => follows_response(head, step),
        Reply::Response(Err(cause)) => fails_because(
            step,
            ErrorKind::Http,
            Error::Other(cause),
        ),
        Reply::Body(Ok(buffer)) => succeeds_with(step, html::anchors_of(html::html_tags(buffer@))),
        Reply::Body(Err(cause)) => fails_because(step, ErrorKind::Io, Error::Other(cause)),
    }
}

/// A file gives the anchors of its headings, and a body those of its tags. A failure is
/// passed on as the cause: that of a request as one of the connection, any other as one of
/// reading. What follows the beginning of an answer does not depend on how it was asked for.
pub proof fn replies_are_followed_by_their_kind(reply: Reply, step: Step)
    requires
        follows(reply, step),
    ensures
        match reply {
            Reply::File(Ok(buffer)) => {
                &&& step is Done && step->Done_0 is Ok
                &&& text::views(step->Done_0->Ok_0@) == anchor::anchor_ids(
                    GithubId,
                    anchor::header_texts(markdown::markdown_events(buffer@), false),
                )
            },
            Reply::Body(Ok(buffer)) => {
                &&& step is Done && step->Done_0 is Ok
                &&& text::views(step->Done_0->Ok_0@) == html::anchors_of(html::html_tags(buffer@))
            },
            Reply::Response(Ok(head)) => follows_response(head, step),
            Reply::File(Err(cause)) => {
                &&& step is Done && step->Done_0 is Err
                &&& step->Done_0->Err_0.kind == ErrorKind::Io
                &&& step->Done_0->Err_0.cause is Some
                &&& *step->Done_0->Err_0.cause->0 == Error::Other(cause)
            },
            Reply::Body(Err(cause)) => {
                &&& step is Done && step->Done_0 is Err
                &&& step->Done_0->Err_0.kind == ErrorKind::Io
                &&& step->Done_0->Err_0.cause is Some
                &&& *step->Done_0->Err_0.cause->0 == Error::Other(cause)
            },
            Reply::Response(Err(cause)) => {
                &&& step is Done && step->Done_0 is Err
                &&& step->Done_0->Err_0.kind == ErrorKind::Http
                &&& step->Done_0->Err_0.cause is Some
                &&& *step->Done_0->Err_0.cause->0 == Error::Other(cause)
            },
        },
{
}

/// Only a body can be unreadable, for the attributes of its tags.
pub proof fn only_bodies_are_unreadable(reply: Reply)
    ensures
        !is_readable(reply) <==> reply is Body && reply->Body_0 is Ok && !html::has_readable_tags(
            reply->Body_0->Ok_0@,
        ),
{
}

/// Whether a reply can be dealt with: the attributes of all tags of a body must be
/// readable.
pub open spec fn is_readable(reply: Reply) -> bool {
    match reply {
        Reply::Body(Ok(buffer)) => html::has_readable_tags(buffer@),
        _ => true,
    }
}

/// A failure that another one caused.
fn failure(kind: ErrorKind, cause: OtherError) -> (res: Step)
    ensures
        fails_because(res, kind, Error::Other(cause)),
{
    Step::Done(Err(LookupError::caused_by(kind, Error::Other(cause))))
}

/// The step after a reply.
pub fn next_step(reply: Reply) -> (res: Step)
    requires
        is_readable(reply),
    ensures
        follows(reply, res),
{
    match reply {
        Reply::File(Ok(buffer)) => Step::Done(Ok(get_path_ids(&buffer, GithubId))),
        Reply::File(Err(cause)) => failure(ErrorKind::Io, cause),
        Reply::Response(Ok(head)) => response_step(&head),
        Reply::Response(Err(cause)) => failure(ErrorKind::Http, cause),
        Reply::Body(Ok(buffer)) => Step::Done(Ok(get_html_ids(&buffer))),
        Reply::Body(Err(cause)) => failure(ErrorKind::Io, cause),
    }
}

/// The step after a reply, or `None` if the attributes of some tag of a body cannot be
/// read.
pub fn try_next_step(reply: Reply) -> (res: Option<Step>)
    ensures
        res is Some <==> is_readable(reply),
        res is Some ==> follows(reply, res->0),
{
    if let Reply::Body(Ok(buffer)) = &reply {
        if !has_readable_attributes(buffer) {
            return None;
        }
    }
    Some(next_step(reply))
}

/// What fetching the anchors of a document gave: the anchors, or the tag and the error
/// to report.
pub fn fetched(link: &Link, result: Result<Vec<String>, LookupError>) -> (res: Result<
    Vec<String>,
    (Tag, Rc<LinkError>),
>)
    ensures
        match result {
            Ok(ids) => res is Ok && res->Ok_0 == ids,
            Err(err) => {
                &&& res is Err
                &&& res->Err_0.0@ == Err::<(), ErrorKind>(err.kind)
                &&& res->Err_0.1.link@ == link@
                &&& *res->Err_0.1.cause == Error::Lookup(err)
            },
        },
        !resolve::is_failure_in_order(res),
{
    match result {
        Ok(ids) => Ok(ids),
        Err(err) => {
            let tag = Tag::from_error_kind(err.kind());
            Err((tag, Rc::new(LinkError::new(link.clone(), Error::Lookup(err)))))
        },
    }
}

} // verus!
