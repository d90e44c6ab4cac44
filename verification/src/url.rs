//! Absolute URLs.
use vstd::prelude::*;
use vstd::string::*;
use url::ParseError;
use crate::host;
use crate::host::is_host_encodable;
use crate::text;
use crate::text::{concat, find_char};

verus! {

/// The greatest length of a text with a scheme that is parsed as a URL.
pub const LONGEST_TEXT: usize = 0x7fff_ffff;

/// Why a text is not an absolute URL.
#[derive(Clone, Copy, Debug, PartialEq, Eq, Structural)]
pub enum UrlError {
    EmptyHost,
    IdnaError,
    InvalidPort,
    InvalidIpv4Address,
    InvalidIpv6Address,
    InvalidDomainCharacter,
    RelativeUrlWithoutBase,
    RelativeUrlWithCannotBeABaseBase,
    SetHostOnCannotBeABaseUrl,
    Overflow,
}

/// What a URL consists of.
pub struct UrlParts {
    /// The scheme, without the colon.
    pub scheme: Seq<char>,
    /// The URL without its fragment.
    pub base: Seq<char>,
    /// What follows the `#`, if there is one.
    pub fragment: Option<Seq<char>>,
}

impl UrlParts {
    /// The whole URL as text.
    pub open spec fn text(self) -> Seq<char> {
        match self.fragment {
            Some(fragment) => self.base + seq!['#'] + fragment,
            None => self.base,
        }
    }

    /// The URL without its fragment.
    pub open spec fn without_fragment(self) -> UrlParts {
        UrlParts { scheme: self.scheme, base: self.base, fragment: None }
    }

    /// The host, with the port if there is one, as it stands between `//` and the path.
    pub open spec fn host(self) -> Seq<char> {
        let rest = self.base.skip(self.scheme.len() as int + 3);
        host::behind_user(rest.take(text::first_index(rest, '/')))
    }

    /// Whether the URL names a document on the web by a host.
    pub open spec fn has_web_host(self) -> bool {
        &&& self.scheme == "http"@ || self.scheme == "https"@
        &&& self.host().len() > 0 && self.host()[0] != ':'
    }

    /// What holds of every URL: without its fragment it holds no `#`, and if it names a
    /// host on the web, its text is parsed as the URL, with the fragment and without,
    /// unless it is refused for the encoded labels of the host.
    pub open spec fn wf(self) -> bool {
        &&& !self.base.contains('#')
        &&& self.has_web_host() ==> {
            &&& is_text_of(self.text(), self)
            &&& is_text_of(self.base, self.without_fragment())
        }
    }
}

/// An absolute URL.
#[derive(Debug, PartialEq, Eq, Hash)]
pub struct Url {
    scheme: String,
    base: String,
    fragment: Option<String>,
}

impl View for Url {
    type V = UrlParts;

    closed spec fn view(&self) -> UrlParts {
        UrlParts {
            scheme: self.scheme@,
            base: self.base@,
            fragment: match self.fragment {
                Some(fragment) => Some(fragment@),
                None => None,
            },
        }
    }
}

/// The parts of a URL that was parsed, or the error.
pub open spec fn url_result(res: Result<Url, UrlError>) -> Result<UrlParts, UrlError> {
    match res {
        Ok(url) => Ok(url@),
        Err(err) => Err(err),
    }
}

/// What `url::Url::parse` makes of a text.
pub uninterp spec fn parsed_url(text: Seq<char>) -> Result<UrlParts, UrlError>;

/// Whether `c` is an ASCII letter.
pub open spec fn is_letter(c: char) -> bool {
    'a' <= c <= 'z' || 'A' <= c <= 'Z'
}

/// Whether a text plainly has no scheme: there is no colon in it, or it begins with
/// a visible character that is not a letter.
pub open spec fn has_no_scheme(text: Seq<char>) -> bool {
    !text.contains(':') || (text.len() > 0 && text[0] > ' ' && !is_letter(text[0]))
}

/// What parsing a text as a URL gives: a text that plainly has no scheme is relative.
pub open spec fn spec_parse(text: Seq<char>) -> Result<UrlParts, UrlError> {
    if has_no_scheme(text) {
        Err(UrlError::RelativeUrlWithoutBase)
    } else {
        parsed_url(text)
    }
}

/// Whether a text can be parsed as a URL: it plainly has no scheme, or it is short
/// enough for its characters to be counted, and no label of the host is too long to be
/// encoded.
pub open spec fn can_be_encoded(text: Seq<char>) -> bool {
    has_no_scheme(text) || (text.len() <= LONGEST_TEXT && host::has_encodable_labels(
        host::host_part(text),
    ))
}

/// Whether the text, if it can be parsed, is parsed as this URL, or is refused for the
/// encoded labels of its host.
pub open spec fn is_text_of(text: Seq<char>, url: UrlParts) -> bool {
    can_be_encoded(text) ==> match spec_parse(text) {
        Ok(parsed) => parsed == url,
        Err(err) => err == UrlError::IdnaError && host::has_encoded_label(url.host()),
    }
}

/// Parses a text with `url::Url::parse`, and takes the URL apart with `scheme`,
/// `fragment` and `set_fragment(None)`. The result is a function of the text. A text
/// that plainly has no scheme is refused as relative.
///
/// The first `#` begins the fragment, and what stands before it is written without one.
/// The text of a URL is in the form that parsing gives it, so if it names a host on the
/// web, it is parsed as the same URL again. A host with encoded labels may be refused
/// then, as the rules for letters that are written from right to left, for one, are
/// applied to what the characters were mapped to. Which hosts these are is left unsaid,
/// and so is what becomes of a host of which mapping left nothing.
///
/// The parser counts the characters of an authority in 32 bits, and encodes labels with
/// sums in 32 bits. It panics where these overflow, so texts are left out on which they
/// might.
#[verifier::external_body]
fn parse_url(text: &str) -> (res: Result<Url, UrlError>)
    requires
        can_be_encoded(text@),
    ensures
        url_result(res) == parsed_url(text@),
        has_no_scheme(text@) ==> res is Err && res->Err_0 == UrlError::RelativeUrlWithoutBase,
        res is Ok ==> res->Ok_0@.wf(),
{
    match url::Url::parse(text) {
        Ok(mut url) => {
            let fragment = url.fragment().map(|fragment| fragment.to_string());
            url.set_fragment(None);
            Ok(Url { scheme: url.scheme().to_string(), base: url.into_string(), fragment })
        },
        Err(err) => Err(match err {
            ParseError::EmptyHost => UrlError::EmptyHost, ParseError::IdnaError => UrlError::IdnaError,
            ParseError::InvalidPort => UrlError::InvalidPort, ParseError::InvalidIpv4Address => UrlError::InvalidIpv4Address,
            ParseError::InvalidIpv6Address => UrlError::InvalidIpv6Address, ParseError::InvalidDomainCharacter => UrlError::InvalidDomainCharacter,
            ParseError::RelativeUrlWithoutBase => UrlError::RelativeUrlWithoutBase, ParseError::Overflow => UrlError::Overflow,
            ParseError::RelativeUrlWithCannotBeABaseBase => UrlError::RelativeUrlWithCannotBeABaseBase,
            ParseError::SetHostOnCannotBeABaseUrl => UrlError::SetHostOnCannotBeABaseUrl,
        }),
    }
}

/// A text is relative without a colon, and if it begins with a visible character that is no
/// letter. What any other text is, the parser says.
pub proof fn texts_without_scheme_are_relative(text: Seq<char>)
    ensures
        !text.contains(':') || (text.len() > 0 && text[0] > ' ' && !('a' <= text[0] <= 'z' || 'A'
            <= text[0] <= 'Z')) ==> spec_parse(text) is Err && spec_parse(text)->Err_0
            == UrlError::RelativeUrlWithoutBase && can_be_encoded(text),
        text.contains(':') && (text.len() > 0 && text[0] > ' ' ==> 'a' <= text[0] <= 'z' || 'A'
            <= text[0] <= 'Z') ==> spec_parse(text) == parsed_url(text),
{
}

/// What was parsed is seen as it is: the URL by its parts, and the error as such. The text
/// of a URL is what stands before its fragment, followed by `#` and the fragment where
/// there is one.
pub proof fn urls_are_seen_as_they_are(res: Result<Url, UrlError>, url: UrlParts)
    ensures
        match (res, url_result(res)) {
            (Ok(url), Ok(parts)) => parts == url@,
            (Err(err), Err(other)) => err == other,
            _ => false,
        },
        url.fragment is None ==> url.text() == url.base,
        url.fragment is Some ==> url.text() == url.base + seq!['#'] + url.fragment->0,
        url.without_fragment().scheme == url.scheme,
        url.without_fragment().base == url.base,
        url.without_fragment().fragment is None,
{
}

/// A text of up to 214 characters can be parsed, whatever they are. A text in ASCII without
/// `%` and `-` can be parsed up to a length that fits into 31 bits.
pub proof fn ordinary_texts_can_be_parsed(text: Seq<char>)
    ensures
        text.len() <= 214 ==> can_be_encoded(text),
        text.len() <= 0x7fff_ffff && (forall|i: int|
            0 <= i < text.len() ==> #[trigger] text[i] <= '\u{7f}' && text[i] != '%' && text[i]
                != '-') ==> can_be_encoded(text),
{
    host::lemma_host_part(text);
    let h = host::host_part(text);
    if text.len() <= 214 {
        host::lemma_short_host(h);
    }
    if forall|i: int|
        0 <= i < text.len() ==> #[trigger] text[i] <= '\u{7f}' && text[i] != '%' && text[i] != '-' {
        assert forall|i: int| 0 <= i < h.len() implies #[trigger] h[i] <= '\u{7f}' && h[i] != '%'
            && h[i] != '-' by {
            assert(text.contains(h[i]));
            let k = choose|k: int| 0 <= k < text.len() && text[k] == h[i];
            assert(text[k] <= '\u{7f}');
        }
        host::lemma_plain_host(h);
    }
}

/// Of a URL that names a server, only the labels of the host decide whether it can be parsed,
/// and its length: neither a user in front nor what follows the host plays a part. Of a URL
/// with another scheme, which names no file either, the length alone decides.
pub proof fn only_host_and_length_decide(
    scheme: Seq<char>,
    user: Seq<char>,
    host: Seq<char>,
    rest: Seq<char>,
)
    requires
        scheme == "http"@ || scheme == "https"@ || scheme == "ftp"@ || scheme == "mailto"@ || scheme
            == "data"@,
        host.len() > 0,
        user.len() > 0 ==> user.last() == '@',
        forall|i: int|
            0 <= i < user.len() ==> #[trigger] user[i] > ' ' && user[i] != '/' && user[i] != '\\'
                && user[i] != '?' && user[i] != '#',
        forall|i: int|
            0 <= i < host.len() ==> #[trigger] host[i] > ' ' && host[i] != '/' && host[i] != '\\'
                && host[i] != '?' && host[i] != '#' && host[i] != '@',
        forall|i: int| 0 <= i < rest.len() ==> #[trigger] rest[i] > ' ',
    ensures
        ({
            let text = scheme + seq![':', '/', '/'] + user + host + seq!['/'] + rest;
            if scheme == "mailto"@ || scheme == "data"@ {
                can_be_encoded(text) <==> text.len() <= 0x7fff_ffff
            } else {
                can_be_encoded(text) <==> text.len() <= 0x7fff_ffff && host::has_encodable_labels(
                    host,
                )
            }
        }),
{
    let text = scheme + seq![':', '/', '/'] + user + host + seq!['/'] + rest;
    host::lemma_host_of_url(scheme, user, host, rest);
    assert(host::has_encodable_labels(Seq::empty())) by {
        host::lemma_short_host(Seq::empty());
    }
    reveal_strlit("http");
    reveal_strlit("https");
    reveal_strlit("ftp");
    reveal_strlit("mailto");
    reveal_strlit("data");
    let n = scheme.len() as int;
    assert(text[n] == ':');
    assert(text.contains(':'));
    assert(text[0] == scheme[0]);
}

/// Whether a text can be parsed as a URL.
pub fn is_parsable(text: &str) -> (res: bool)
    ensures
        res == can_be_encoded(text@),
{
    proof {
        text::lemma_first_index(text@, ':');
    }
    if find_char(text, ':').is_none() {
        return true;
    }
    let first = text.get_char(0);
    if first > ' ' && !('a' <= first && first <= 'z' || 'A' <= first && first <= 'Z') {
        return true;
    }
    text.unicode_len() <= LONGEST_TEXT && is_host_encodable(text)
}

impl Url {
    /// Parses an absolute URL.
    pub fn parse(text: &str) -> (res: Result<Url, UrlError>)
        requires
            can_be_encoded(text@),
        ensures
            url_result(res) == spec_parse(text@),
            url_result(res) == parsed_url(text@),
            res is Ok ==> res->Ok_0@.wf(),
    {
        parse_url(text)
    }

    /// Parses an absolute URL, or gives `None` if the text is too long, or some label of
    /// the host is too long to be encoded.
    pub fn try_parse(text: &str) -> (res: Option<Result<Url, UrlError>>)
        ensures
            res is Some <==> can_be_encoded(text@),
            res is Some ==> url_result(res->0) == spec_parse(text@),
            res is Some ==> url_result(res->0) == parsed_url(text@),
            res is Some && res->0 is Ok ==> res->0->Ok_0@.wf(),
    {
        if is_parsable(text) {
            Some(Url::parse(text))
        } else {
            None
        }
    }

    /// The scheme, without the colon.
    pub fn scheme(&self) -> (res: &str)
        ensures
            res@ == self@.scheme,
    {
        &self.scheme
    }

    /// The fragment, without the `#`.
    pub fn fragment(&self) -> (res: Option<&str>)
        ensures
            match res {
                Some(fragment) => self@.fragment == Some(fragment@),
                None => self@.fragment is None,
            },
    {
        match &self.fragment {
            Some(fragment) => Some(fragment.as_str()),
            None => None,
        }
    }

    /// The URL without its fragment.
    pub fn without_fragment(&self) -> (res: Url)
        ensures
            res@ == self@.without_fragment(),
            self@.wf() ==> res@.wf(),
    {
        Url { scheme: self.scheme.clone(), base: self.base.clone(), fragment: None }
    }

    /// The whole URL as text.
    pub fn text(&self) -> (res: String)
        ensures
            res@ == self@.text(),
    {
        match &self.fragment {
            Some(fragment) => {
                proof {
                    reveal_strlit("#");
                    assert("#"@ =~= seq!['#']);
                }
                concat(&concat(&self.base, "#"), fragment)
            },
            None => self.base.clone(),
        }
    }
}

impl Clone for Url {
    fn clone(&self) -> (res: Url)
        ensures
            res@ == self@,
    {
        let fragment = match &self.fragment {
            Some(fragment) => Some(fragment.clone()),
            None => None,
        };
        Url { scheme: self.scheme.clone(), base: self.base.clone(), fragment }
    }
}

} // verus!
