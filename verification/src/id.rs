//! Anchors: the identifiers that headings get.
use vstd::prelude::*;
use vstd::string::*;
use crate::link;
use crate::number;
use crate::number::usize_text;
use crate::text::concat;

verus! {

/// The characters that do not appear in an identifier.
pub const GITHUB_PUNCTUATION: &'static str = "[^\\w -]";

/// What `regex::Regex::replace_all` makes of a text, if the pattern is a regular
/// expression.
pub uninterp spec fn regex_replaced(
    pattern: Seq<char>,
    text: Seq<char>,
    replacement: Seq<char>,
) -> Option<Seq<char>>;

/// Whether a character stays when punctuation is removed. Of the ASCII characters
/// these are letters, digits, `_`, the space and `-`. Of the others it is those that
/// the pattern for punctuation does not match.
pub open spec fn is_kept(c: char) -> bool {
    if c <= '\u{7f}' {
        'a' <= c <= 'z' || 'A' <= c <= 'Z' || '0' <= c <= '9' || c == '_' || c == ' ' || c == '-'
    } else {
        regex_replaced(GITHUB_PUNCTUATION@, seq![c], seq![]) == Some(seq![c])
    }
}

/// A text without its punctuation.
pub open spec fn without_punctuation(text: Seq<char>) -> Seq<char> {
    text.filter(|c: char| is_kept(c))
}

/// Compiles the pattern with `regex::Regex::new` and replaces all its matches in the
/// text with `replace_all`; `None` if the pattern is not a regular expression. The
/// result is a function of the arguments. The pattern for punctuation is a regular
/// expression; it matches single characters, so replacing its matches by nothing
/// leaves the characters that it does not match. Which characters outside ASCII
/// those are is not stated.
#[verifier::external_body]
fn replace_all(pattern: &str, text: &str, replacement: &str) -> (res: Option<String>)
    ensures
        link::opt_view(res) == regex_replaced(pattern@, text@, replacement@),
        pattern@ == GITHUB_PUNCTUATION@ && replacement@.len() == 0 ==> res is Some
            && res->0@ == without_punctuation(text@),
{
    let regex = regex::Regex::new(pattern).ok()?;
    Some(regex.replace_all(text, replacement).into_owned())
}

/// The small letter of an ASCII letter, and any other character itself.
pub open spec fn small(c: char) -> char {
    if 'A' <= c <= 'Z' {
        (c as int - 'A' as int + 'a' as int) as char
    } else {
        c
    }
}

/// A text with the ASCII letters made small.
pub open spec fn small_letters(s: Seq<char>) -> Seq<char> {
    s.map_values(|c: char| small(c))
}

/// `str::to_ascii_lowercase` maps the letters `A` to `Z` to `a` to `z`, and changes
/// nothing else.
pub assume_specification[ str::to_ascii_lowercase ](s: &str) -> (res: String)
    ensures
        res@ == small_letters(s@),
;

/// How headings are turned into identifiers.
pub trait ToId {
    /// The identifier of a heading, of whose text there were `repetition` headings before.
    spec fn spec_id(&self, text: Seq<char>, repetition: nat) -> Seq<char>;

    /// The identifier of a heading, of whose text there were `repetition` headings before.
    fn to_id(&self, text: &str, repetition: usize) -> (res: String)
        ensures
            res@ == self.spec_id(text@, repetition as nat),
    ;
}

/// The identifiers of headings on GitHub.
#[derive(Clone, Copy, Debug)]
pub struct GithubId;

/// The identifier made of a text: in small letters, and with a number if there were
/// such headings before.
pub open spec fn numbered_id(text: Seq<char>, repetition: nat) -> Seq<char> {
    if repetition == 0 {
        small_letters(text)
    } else {
        small_letters(text) + seq!['-'] + number::decimal(repetition)
    }
}

/// The identifier of a heading on GitHub, made of its text without punctuation.
pub open spec fn github_id(text: Seq<char>, repetition: nat) -> Seq<char> {
    numbered_id(without_punctuation(text), repetition)
}

/// Of the characters of ASCII, the letters, the digits, `_`, the space and `-` stay where
/// punctuation is removed, and no others. Each character stays or goes by itself, so the
/// order of those that stay is kept.
pub proof fn punctuation_goes_and_nothing_else(a: Seq<char>, b: Seq<char>, c: char)
    ensures
        c <= '\u{7f}' ==> (is_kept(c) <==> 'a' <= c <= 'z' || 'A' <= c <= 'Z' || '0' <= c <= '9'
            || c == '_' || c == ' ' || c == '-'),
        c > '\u{7f}' ==> (is_kept(c) <==> regex_replaced("[^\\w -]"@, seq![c], seq![]) == Some(
            seq![c],
        )),
        GITHUB_PUNCTUATION@ == "[^\\w -]"@,
        without_punctuation(a + b) == without_punctuation(a) + without_punctuation(b),
        is_kept(c) ==> without_punctuation(seq![c]) == seq![c],
        !is_kept(c) ==> without_punctuation(seq![c]).len() == 0,
{
    let kept = |c: char| is_kept(c);
    Seq::filter_distributes_over_add(a, b, kept);
    reveal(Seq::filter);
    reveal_with_fuel(Seq::filter, 2);
    assert(seq![c].drop_last() =~= Seq::<char>::empty());
    assert(seq![c].last() == c);
    assert(Seq::<char>::empty().filter(kept) =~= Seq::<char>::empty());
    assert(seq![c].filter(kept) =~= if is_kept(c) {
        seq![c]
    } else {
        Seq::<char>::empty()
    });
}

/// An identifier has a character for each that stays of the text, in order: the small
/// letter for a letter of ASCII, and any other character itself. Behind them comes the
/// number of such headings before, if there were any, set off by `-`.
pub proof fn identifier_is_text_in_small_letters(text: Seq<char>, repetition: nat)
    ensures
        ({
            let kept = without_punctuation(text);
            let id = github_id(text, repetition);
            &&& id.len() >= kept.len()
            &&& forall|i: int|
                0 <= i < kept.len() ==> {
                    &&& 'A' <= kept[i] <= 'Z' ==> #[trigger] id[i] as int == kept[i] as int + 32
                    &&& !('A' <= kept[i] <= 'Z') ==> id[i] == kept[i]
                }
            &&& repetition == 0 ==> id.len() == kept.len()
            &&& repetition > 0 ==> id.skip(kept.len() as int) == seq!['-'] + number::decimal(
                repetition,
            )
            &&& GithubId.spec_id(text, repetition) == id
        }),
{
    let kept = without_punctuation(text);
    let id = github_id(text, repetition);
    if repetition > 0 {
        assert(id.skip(kept.len() as int) =~= seq!['-'] + number::decimal(repetition));
    }
    assert forall|i: int| 0 <= i < kept.len() implies ({
        &&& 'A' <= kept[i] <= 'Z' ==> #[trigger] id[i] as int == kept[i] as int + 32
        &&& !('A' <= kept[i] <= 'Z') ==> id[i] == kept[i]
    }) by {
        assert(id[i] == small(kept[i]));
    }
}

/// What is made of a text without punctuation is the same as of any text.
pub proof fn numbered_text_is_identifier(text: Seq<char>, repetition: nat)
    ensures
        numbered_id(without_punctuation(text), repetition) == github_id(text, repetition),
        numbered_id(text, repetition).len() >= text.len(),
        forall|i: int|
            0 <= i < text.len() ==> {
                &&& 'A' <= text[i] <= 'Z' ==> #[trigger] numbered_id(text, repetition)[i] as int
                    == text[i] as int + 32
                &&& !('A' <= text[i] <= 'Z') ==> numbered_id(text, repetition)[i] == text[i]
            },
        repetition == 0 ==> numbered_id(text, repetition).len() == text.len(),
        repetition > 0 ==> numbered_id(text, repetition).skip(text.len() as int) == seq!['-']
            + number::decimal(repetition),
{
    let id = numbered_id(text, repetition);
    if repetition > 0 {
        assert(id.skip(text.len() as int) =~= seq!['-'] + number::decimal(repetition));
    }
    assert forall|i: int| 0 <= i < text.len() implies ({
        &&& 'A' <= text[i] <= 'Z' ==> #[trigger] id[i] as int == text[i] as int + 32
        &&& !('A' <= text[i] <= 'Z') ==> id[i] == text[i]
    }) by {
        assert(id[i] == small(text[i]));
    }
}

/// Headings of the same text get different identifiers.
pub proof fn repeated_headings_differ(text: Seq<char>, a: nat, b: nat)
    requires
        a != b,
    ensures
        github_id(text, a) != github_id(text, b),
{
    let id = small_letters(without_punctuation(text));
    number::decimal_reads_back(a);
    number::decimal_reads_back(b);
    if github_id(text, a) == github_id(text, b) {
        if a > 0 && b > 0 {
            assert(github_id(text, a).skip(id.len() as int + 1) =~= number::decimal(a));
            assert(github_id(text, b).skip(id.len() as int + 1) =~= number::decimal(b));
        }
    }
}

impl ToId for GithubId {
    open spec fn spec_id(&self, text: Seq<char>, repetition: nat) -> Seq<char> {
        github_id(text, repetition)
    }

    fn to_id(&self, text: &str, repetition: usize) -> (res: String) {
        proof {
            reveal_strlit("");
        }
        let text = replace_all(GITHUB_PUNCTUATION, text, "").unwrap();
        GithubId::number(&text, repetition)
    }
}

impl GithubId {
    /// The identifier made of a text without punctuation: in small letters, and with
    /// a number if there were such headings before.
    pub fn number(text: &str, repetition: usize) -> (res: String)
        ensures
            res@ == numbered_id(text@, repetition as nat),
    {
        let text = text.to_ascii_lowercase();
        if repetition == 0 {
            text
        } else {
            proof {
                reveal_strlit("-");
                assert("-"@ =~= seq!['-']);
            }
            concat(&concat(&text, "-"), &usize_text(repetition))
        }
    }
}

} // verus!
