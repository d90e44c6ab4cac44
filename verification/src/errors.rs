//! What can go wrong with a link, and how it is reported.
use vstd::prelude::*;
use vstd::string::*;
use crate::link::Link;
use crate::number;
use crate::number::{parse_usize, usize_text};
use crate::text::{concat, same_text};

verus! {

/// The kinds of failure.
#[derive(Clone, Copy, Debug, PartialEq, Eq, Hash, Structural)]
pub enum ErrorKind {
    /// The link is an absolute path.
    Absolute,
    /// The server could not be asked.
    Http,
    /// The server answered with a status other than success.
    HttpStatus(u16),
    /// The document could not be read.
    Io,
    /// The document has no such anchor.
    NoFragment,
    /// The server gave no media type.
    NoMime,
    /// The document has such an anchor only behind one of the known prefixes.
    Prefixed,
    /// The scheme is not supported.
    Protocol,
    /// The media type is not one whose anchors can be found.
    UnrecognizedMime,
}

/// A text that is not the name of a kind of failure.
#[derive(Clone, Copy, Debug, PartialEq, Eq, Structural)]
pub struct ParseError;

/// The name of a kind of failure.
pub open spec fn kind_name(kind: ErrorKind) -> Seq<char> {
    match kind {
        ErrorKind::Absolute => "ABSOLUTE"@,
        ErrorKind::Http => "HTTP"@,
        ErrorKind::HttpStatus(status) => "HTTP_"@ + number::decimal(status as nat),
        ErrorKind::Io => "IO"@,
        ErrorKind::NoFragment => "NO_FRAGMENT"@,
        ErrorKind::NoMime => "NO_MIME"@,
        ErrorKind::Prefixed => "PREFIXED"@,
        ErrorKind::Protocol => "PROTOCOL"@,
        ErrorKind::UnrecognizedMime => "UNRECOGNIZED_MIME"@,
    }
}

/// The HTTP status in a name: `HTTP_` followed by decimal digits of a 16-bit number.
pub open spec fn named_status(name: Seq<char>) -> Option<u16> {
    let digits = name.skip(5);
    if name.len() >= 5 && name.take(5) == "HTTP_"@ && number::is_digits(digits)
        && number::decimal_value(digits) <= u16::MAX {
        Some(number::decimal_value(digits) as u16)
    } else {
        None
    }
}

/// The kind of failure that a name names.
pub open spec fn named_kind(name: Seq<char>) -> Option<ErrorKind> {
    if name == "ABSOLUTE"@ {
        Some(ErrorKind::Absolute)
    } else if name == "HTTP"@ {
        Some(ErrorKind::Http)
    } else if name == "IO"@ {
        Some(ErrorKind::Io)
    } else if name == "NO_FRAGMENT"@ {
        Some(ErrorKind::NoFragment)
    } else if name == "NO_MIME"@ {
        Some(ErrorKind::NoMime)
    } else if name == "PREFIXED"@ {
        Some(ErrorKind::Prefixed)
    } else if name == "PROTOCOL"@ {
        Some(ErrorKind::Protocol)
    } else if name == "UNRECOGNIZED_MIME"@ {
        Some(ErrorKind::UnrecognizedMime)
    } else {
        match named_status(name) {
            Some(status) => Some(ErrorKind::HttpStatus(status)),
            None => None,
        }
    }
}

/// The name of a kind names that kind.
pub proof fn kind_name_reads_back(kind: ErrorKind)
    ensures
        named_kind(kind_name(kind)) == Some(kind),
{
    reveal_strlit("ABSOLUTE");
    reveal_strlit("HTTP");
    reveal_strlit("HTTP_");
    reveal_strlit("IO");
    reveal_strlit("NO_FRAGMENT");
    reveal_strlit("NO_MIME");
    reveal_strlit("PREFIXED");
    reveal_strlit("PROTOCOL");
    reveal_strlit("UNRECOGNIZED_MIME");
    match kind {
        ErrorKind::HttpStatus(status) => {
            number::decimal_reads_back(status as nat);
            let name = kind_name(kind);
            assert(name.take(5) =~= "HTTP_"@);
            assert(name.skip(5) =~= number::decimal(status as nat));
            assert(name[4] == '_');
            assert(name[1] == 'T');
        },
        ErrorKind::Protocol => {
            assert(kind_name(kind)[1] == 'R' && kind_name(kind)[2] == 'O');
        },
        ErrorKind::Prefixed => {
            assert(kind_name(kind)[2] == 'E');
        },
        _ => {},
    }
}

/// No word but its name names a kind of failure; in the name of a status there may be
/// zeros in front of the number.
pub proof fn only_names_name_kinds(name: Seq<char>)
    ensures
        match named_kind(name) {
            Some(ErrorKind::HttpStatus(status)) => {
                &&& name.len() > 5
                &&& name.take(5) == kind_name(ErrorKind::HttpStatus(status)).take(5)
                &&& forall|i: int| 5 <= i < name.len() ==> '0' <= #[trigger] name[i] <= '9'
                &&& number::decimal_value(name.skip(5)) == status
            },
            Some(kind) => name == kind_name(kind),
            None => forall|kind: ErrorKind| name != #[trigger] kind_name(kind),
        },
{
    reveal_strlit("HTTP_");
    match named_kind(name) {
        Some(ErrorKind::HttpStatus(status)) => {
            assert(kind_name(ErrorKind::HttpStatus(status)).take(5) =~= "HTTP_"@);
            let digits = name.skip(5);
            assert forall|i: int| 5 <= i < name.len() implies '0' <= #[trigger] name[i] <= '9' by {
                assert(digits[i - 5] == name[i]);
                assert(number::is_digit(digits[i - 5]));
            }
        },
        Some(_) => {},
        None => {
            assert forall|kind: ErrorKind| name != #[trigger] kind_name(kind) by {
                kind_name_reads_back(kind);
            }
        },
    }
}

impl ErrorKind {
    /// The name of the kind.
    pub fn name(&self) -> (res: String)
        ensures
            res@ == kind_name(*self),
    {
        match *self {
            ErrorKind::Absolute => "ABSOLUTE".to_owned(),
            ErrorKind::Http => "HTTP".to_owned(),
            ErrorKind::HttpStatus(status) => concat("HTTP_", &usize_text(status as usize)),
            ErrorKind::Io => "IO".to_owned(),
            ErrorKind::NoFragment => "NO_FRAGMENT".to_owned(),
            ErrorKind::NoMime => "NO_MIME".to_owned(),
            ErrorKind::Prefixed => "PREFIXED".to_owned(),
            ErrorKind::Protocol => "PROTOCOL".to_owned(),
            ErrorKind::UnrecognizedMime => "UNRECOGNIZED_MIME".to_owned(),
        }
    }

    /// The HTTP status in a name.
    fn status_from_str(name: &str) -> (res: Option<u16>)
        ensures
            res == named_status(name@),
    {
        proof {
            reveal_strlit("HTTP_");
        }
        let n = name.unicode_len();
        if n < 6 {
            return None;
        }
        let head = name.substring_char(0, 5);
        let digits = name.substring_char(5, n);
        assert(head@ == name@.take(5));
        assert(digits@ == name@.skip(5));
        if !same_text(head, "HTTP_") || digits.get_char(0) == '+' {
            return None;
        }
        match parse_usize(digits) {
            Some(status) if status <= 65535 => Some(status as u16),
            _ => None,
        }
    }

    /// The kind of failure that a name names.
    pub fn from_str(name: &str) -> (res: Result<ErrorKind, ParseError>)
        ensures
            match named_kind(name@) {
                Some(kind) => res == Ok::<ErrorKind, ParseError>(kind),
                None => res is Err,
            },
    {
        if same_text(name, "ABSOLUTE") {
            Ok(ErrorKind::Absolute)
        } else if same_text(name, "HTTP") {
            Ok(ErrorKind::Http)
        } else if same_text(name, "IO") {
            Ok(ErrorKind::Io)
        } else if same_text(name, "NO_FRAGMENT") {
            Ok(ErrorKind::NoFragment)
        } else if same_text(name, "NO_MIME") {
            Ok(ErrorKind::NoMime)
        } else if same_text(name, "PREFIXED") {
            Ok(ErrorKind::Prefixed)
        } else if same_text(name, "PROTOCOL") {
            Ok(ErrorKind::Protocol)
        } else if same_text(name, "UNRECOGNIZED_MIME") {
            Ok(ErrorKind::UnrecognizedMime)
        } else {
            match Self::status_from_str(name) {
                Some(status) => Ok(ErrorKind::HttpStatus(status)),
                None => Err(ParseError),
            }
        }
    }
}

/// A failure, with what caused it.
#[derive(Debug)]
pub enum Error {
    Link(LinkError),
    Fragment(FragmentError),
    Prefix(PrefixError),
    Lookup(LookupError),
    UnrecognizedMime(UnrecognizedMime),
    Other(OtherError),
}

/// A failure of another library, by its message, and what caused it.
#[derive(Debug)]
pub struct OtherError {
    pub message: String,
    pub cause: Option<Box<Error>>,
}

/// A link that is not in order.
#[derive(Debug)]
pub struct LinkError {
    pub link: Link,
    pub cause: Box<Error>,
}

/// A fragment that does not name an anchor of its document.
#[derive(Debug)]
pub struct FragmentError {
    pub fragment: String,
    pub cause: Box<Error>,
}

/// A fragment that names an anchor only behind a prefix.
#[derive(Debug)]
pub struct PrefixError {
    pub prefix: String,
    pub cause: Box<Error>,
}

/// The anchors of a document could not be found, or the fragment is not among them.
#[derive(Debug)]
pub struct LookupError {
    pub kind: ErrorKind,
    pub cause: Option<Box<Error>>,
}

/// A media type whose anchors cannot be found.
#[derive(Debug)]
pub struct UnrecognizedMime {
    pub mime: String,
}

/// What went wrong, by the kind of failure.
pub open spec fn kind_message(kind: ErrorKind) -> Seq<char> {
    match kind {
        ErrorKind::Absolute => "absolute path"@,
        ErrorKind::Http => "request failed"@,
        ErrorKind::HttpStatus(status) => "unexpected status "@ + number::decimal(status as nat),
        ErrorKind::Io => "reading failed"@,
        ErrorKind::NoFragment => "no such fragment"@,
        ErrorKind::NoMime => "no media type"@,
        ErrorKind::Prefixed => "no such fragment without prefix"@,
        ErrorKind::Protocol => "protocol not supported"@,
        ErrorKind::UnrecognizedMime => "media type not supported"@,
    }
}

/// The message of a failure, without what caused it.
pub open spec fn error_message(err: Error) -> Seq<char> {
    match err {
        Error::Link(err) => "link "@ + err.link@.text(),
        Error::Fragment(err) => "fragment "@ + err.fragment@,
        Error::Prefix(err) => "prefix "@ + err.prefix@,
        Error::Lookup(err) => kind_message(err.kind),
        Error::UnrecognizedMime(err) => "media type "@ + err.mime@,
        Error::Other(err) => err.message@,
    }
}

/// What caused a failure.
pub open spec fn error_cause(err: Error) -> Option<Error> {
    match err {
        Error::Link(err) => Some(*err.cause),
        Error::Fragment(err) => Some(*err.cause),
        Error::Prefix(err) => Some(*err.cause),
        Error::Lookup(err) => match err.cause {
            Some(cause) => Some(*cause),
            None => None,
        },
        Error::UnrecognizedMime(_) => None,
        Error::Other(err) => match err.cause {
            Some(cause) => Some(*cause),
            None => None,
        },
    }
}

/// The messages of a failure, of what caused it, of what caused that, and so on.
pub open spec fn messages(err: Error) -> Seq<Seq<char>>
    decreases err,
{
    seq![error_message(err)] + match err {
        Error::Link(err) => messages(*err.cause),
        Error::Fragment(err) => messages(*err.cause),
        Error::Prefix(err) => messages(*err.cause),
        Error::Lookup(err) => match err.cause {
            Some(cause) => messages(*cause),
            None => seq![],
        },
        Error::UnrecognizedMime(_) => seq![],
        Error::Other(err) => match err.cause {
            Some(cause) => messages(*cause),
            None => seq![],
        },
    }
}

/// The messages of a failure that may not have happened.
pub open spec fn messages_of(err: Option<Error>) -> Seq<Seq<char>> {
    match err {
        Some(err) => messages(err),
        None => seq![],
    }
}

/// The messages of a failure are its own and those of what caused it.
pub proof fn lemma_messages(err: Error)
    ensures
        messages(err) == seq![error_message(err)] + messages_of(error_cause(err)),
{
}

/// The chain of causes of a failure is followed to its end: what caused it comes next, and
/// behind it what caused that. A link, a fragment and a prefix always have a cause.
pub proof fn causes_are_followed_to_the_end(err: Error)
    ensures
        messages(err).len() == 1 + messages_of(error_cause(err)).len(),
        messages(err)[0] == error_message(err),
        messages(err).skip(1) == messages_of(error_cause(err)),
        messages_of(None).len() == 0,
        messages_of(Some(err)) == messages(err),
        error_cause(err) == match err {
            Error::Link(err) => Some(*err.cause),
            Error::Fragment(err) => Some(*err.cause),
            Error::Prefix(err) => Some(*err.cause),
            Error::Lookup(err) => match err.cause {
                Some(cause) => Some(*cause),
                None => None,
            },
            Error::UnrecognizedMime(_) => None,
            Error::Other(err) => match err.cause {
                Some(cause) => Some(*cause),
                None => None,
            },
        },
{
    assert(messages(err).skip(1) =~= messages_of(error_cause(err)));
}

/// A message ends with what the failure is about: the link, the fragment, the prefix, the
/// media type or the status. That of another library is passed on as it is.
pub proof fn messages_tell_what_failed(err: Error)
    ensures
        match err {
            Error::Link(err) => err.link@.text().is_suffix_of(error_message(Error::Link(err))),
            Error::Fragment(err) => err.fragment@.is_suffix_of(
                error_message(Error::Fragment(err)),
            ),
            Error::Prefix(err) => err.prefix@.is_suffix_of(error_message(Error::Prefix(err))),
            Error::Lookup(err) => match err.kind {
                ErrorKind::HttpStatus(status) => number::decimal(status as nat).is_suffix_of(
                    error_message(Error::Lookup(err)),
                ),
                _ => true,
            },
            Error::UnrecognizedMime(err) => err.mime@.is_suffix_of(
                error_message(Error::UnrecognizedMime(err)),
            ),
            Error::Other(err) => error_message(Error::Other(err)) == err.message@,
        },
{
    match err {
        Error::Link(err) => {
            lemma_suffix("link "@, err.link@.text());
        },
        Error::Fragment(err) => {
            lemma_suffix("fragment "@, err.fragment@);
        },
        Error::Prefix(err) => {
            lemma_suffix("prefix "@, err.prefix@);
        },
        Error::Lookup(err) => {
            if let ErrorKind::HttpStatus(status) = err.kind {
                lemma_suffix("unexpected status "@, number::decimal(status as nat));
            }
        },
        Error::UnrecognizedMime(err) => {
            lemma_suffix("media type "@, err.mime@);
        },
        Error::Other(_) => {},
    }
}

/// A failure that is reported by itself has the message and the cause that it has as one of
/// all failures.
pub proof fn failures_are_reported_alike(
    link: LinkError,
    fragment: FragmentError,
    prefix: PrefixError,
    lookup: LookupError,
    mime: UnrecognizedMime,
    other: OtherError,
    err: Error,
)
    ensures
        link.spec_message() == error_message(Error::Link(link)),
        link.spec_cause() == error_cause(Error::Link(link)),
        fragment.spec_message() == error_message(Error::Fragment(fragment)),
        fragment.spec_cause() == error_cause(Error::Fragment(fragment)),
        prefix.spec_message() == error_message(Error::Prefix(prefix)),
        prefix.spec_cause() == error_cause(Error::Prefix(prefix)),
        lookup.spec_message() == error_message(Error::Lookup(lookup)),
        lookup.spec_cause() == error_cause(Error::Lookup(lookup)),
        mime.spec_message() == error_message(Error::UnrecognizedMime(mime)),
        mime.spec_cause() == error_cause(Error::UnrecognizedMime(mime)),
        other.spec_message() == error_message(Error::Other(other)),
        other.spec_cause() == error_cause(Error::Other(other)),
        err.spec_message() == error_message(err),
        err.spec_cause() == error_cause(err),
{
}

/// What follows a text is at the end of the two.
proof fn lemma_suffix(a: Seq<char>, b: Seq<char>)
    ensures
        b.is_suffix_of(a + b),
{
    let s = a + b;
    assert(b =~= s.subrange(s.len() - b.len(), s.len() as int));
}

/// Failures that can be reported: each has a message, and may have a cause.
pub trait Failure {
    /// The message.
    spec fn spec_message(&self) -> Seq<char>;

    /// The cause.
    spec fn spec_cause(&self) -> Option<Error>;

    /// The message, without what caused the failure.
    fn message(&self) -> (res: String)
        ensures
            res@ == self.spec_message(),
    ;

    /// What caused the failure.
    fn cause(&self) -> (res: Option<&Error>)
        ensures
            match res {
                Some(cause) => self.spec_cause() == Some(*cause),
                None => self.spec_cause() is None,
            },
    ;
}

impl Failure for Error {
    open spec fn spec_message(&self) -> Seq<char> {
        error_message(*self)
    }

    open spec fn spec_cause(&self) -> Option<Error> {
        error_cause(*self)
    }

    fn message(&self) -> (res: String) {
        match self {
            Error::Link(err) => err.message(),
            Error::Fragment(err) => err.message(),
            Error::Prefix(err) => err.message(),
            Error::Lookup(err) => err.message(),
            Error::UnrecognizedMime(err) => err.message(),
            Error::Other(err) => err.message(),
        }
    }

    fn cause(&self) -> (res: Option<&Error>) {
        match self {
            Error::Link(err) => err.cause(),
            Error::Fragment(err) => err.cause(),
            Error::Prefix(err) => err.cause(),
            Error::Lookup(err) => err.cause(),
            Error::UnrecognizedMime(err) => err.cause(),
            Error::Other(err) => err.cause(),
        }
    }
}

impl Failure for LinkError {
    open spec fn spec_message(&self) -> Seq<char> {
        "link "@ + self.link@.text()
    }

    open spec fn spec_cause(&self) -> Option<Error> {
        Some(*self.cause)
    }

    fn message(&self) -> (res: String) {
        concat("link ", &self.link.text())
    }

    fn cause(&self) -> (res: Option<&Error>) {
        Some(&*self.cause)
    }
}

impl Failure for FragmentError {
    open spec fn spec_message(&self) -> Seq<char> {
        "fragment "@ + self.fragment@
    }

    open spec fn spec_cause(&self) -> Option<Error> {
        Some(*self.cause)
    }

    fn message(&self) -> (res: String) {
        concat("fragment ", &self.fragment)
    }

    fn cause(&self) -> (res: Option<&Error>) {
        Some(&*self.cause)
    }
}

impl Failure for PrefixError {
    open spec fn spec_message(&self) -> Seq<char> {
        "prefix "@ + self.prefix@
    }

    open spec fn spec_cause(&self) -> Option<Error> {
        Some(*self.cause)
    }

    fn message(&self) -> (res: String) {
        concat("prefix ", &self.prefix)
    }

    fn cause(&self) -> (res: Option<&Error>) {
        Some(&*self.cause)
    }
}

impl Failure for UnrecognizedMime {
    open spec fn spec_message(&self) -> Seq<char> {
        "media type "@ + self.mime@
    }

    open spec fn spec_cause(&self) -> Option<Error> {
        None
    }

    fn message(&self) -> (res: String) {
        concat("media type ", &self.mime)
    }

    fn cause(&self) -> (res: Option<&Error>) {
        None
    }
}

impl Failure for LookupError {
    open spec fn spec_message(&self) -> Seq<char> {
        kind_message(self.kind)
    }

    open spec fn spec_cause(&self) -> Option<Error> {
        match self.cause {
            Some(cause) => Some(*cause),
            None => None,
        }
    }

    fn message(&self) -> (res: String) {
        match self.kind {
            ErrorKind::Absolute => "absolute path".to_owned(),
            ErrorKind::Http => "request failed".to_owned(),
            ErrorKind::HttpStatus(status) => concat(
                "unexpected status ",
                &usize_text(status as usize),
            ),
            ErrorKind::Io => "reading failed".to_owned(),
            ErrorKind::NoFragment => "no such fragment".to_owned(),
            ErrorKind::NoMime => "no media type".to_owned(),
            ErrorKind::Prefixed => "no such fragment without prefix".to_owned(),
            ErrorKind::Protocol => "protocol not supported".to_owned(),
            ErrorKind::UnrecognizedMime => "media type not supported".to_owned(),
        }
    }

    fn cause(&self) -> (res: Option<&Error>) {
        match &self.cause {
            Some(cause) => Some(&**cause),
            None => None,
        }
    }
}

impl Failure for OtherError {
    open spec fn spec_message(&self) -> Seq<char> {
        self.message@
    }

    open spec fn spec_cause(&self) -> Option<Error> {
        match self.cause {
            Some(cause) => Some(*cause),
            None => None,
        }
    }

    fn message(&self) -> (res: String) {
        self.message.clone()
    }

    fn cause(&self) -> (res: Option<&Error>) {
        match &self.cause {
            Some(cause) => Some(&**cause),
            None => None,
        }
    }
}

impl LinkError {
    /// A link that is not in order.
    pub fn new(link: Link, cause: Error) -> (res: LinkError)
        ensures
            res.link == link,
            *res.cause == cause,
    {
        LinkError { link, cause: Box::new(cause) }
    }
}

impl FragmentError {
    /// A fragment that does not name an anchor of its document.
    pub fn new(fragment: String, cause: Error) -> (res: FragmentError)
        ensures
            res.fragment == fragment,
            *res.cause == cause,
    {
        FragmentError { fragment, cause: Box::new(cause) }
    }
}

impl PrefixError {
    /// A fragment that names an anchor only behind a prefix.
    pub fn new(prefix: String, cause: Error) -> (res: PrefixError)
        ensures
            res.prefix == prefix,
            *res.cause == cause,
    {
        PrefixError { prefix, cause: Box::new(cause) }
    }
}

impl UnrecognizedMime {
    /// A media type whose anchors cannot be found.
    pub fn new(mime: String) -> (res: UnrecognizedMime)
        ensures
            res.mime == mime,
    {
        UnrecognizedMime { mime }
    }
}

impl OtherError {
    /// A failure of another library with this message, and with what caused it.
    pub fn new(message: String, cause: Option<OtherError>) -> (res: OtherError)
        ensures
            res.message == message,
            match cause {
                Some(cause) => res.cause is Some && *res.cause->0 == Error::Other(cause),
                None => res.cause is None,
            },
    {
        match cause {
            Some(cause) => OtherError { message, cause: Some(Box::new(Error::Other(cause))) },
            None => OtherError { message, cause: None },
        }
    }
}

impl LookupError {
    /// A failure that nothing else caused.
    pub fn from_kind(kind: ErrorKind) -> (res: LookupError)
        ensures
            res.kind == kind,
            res.cause is None,
    {
        LookupError { kind, cause: None }
    }

    /// A failure of the given kind, and what caused it.
    pub fn caused_by(kind: ErrorKind, cause: Error) -> (res: LookupError)
        ensures
            res.kind == kind,
            res.cause is Some,
            *res.cause->0 == cause,
    {
        LookupError { kind, cause: Some(Box::new(cause)) }
    }

    /// The kind of failure.
    pub fn kind(&self) -> (res: ErrorKind)
        ensures
            res == self.kind,
    {
        self.kind
    }
}

} // verus!
