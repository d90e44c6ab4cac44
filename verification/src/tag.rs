//! The outcome of checking a link, as one word.
use vstd::prelude::*;
use vstd::string::*;
use vstd::utf8::*;
use crate::errors;
use crate::errors::{ErrorKind, ParseError};
use crate::number;
use crate::text::same_text;

verus! {

/// The outcome of checking a link: `Ok`, or the kind of failure.
#[derive(Clone, Copy, Debug, PartialEq, Eq, Hash)]
pub struct Tag(Result<(), ErrorKind>);

impl View for Tag {
    type V = Result<(), ErrorKind>;

    closed spec fn view(&self) -> Result<(), ErrorKind> {
        self.0
    }
}

/// The capital letter of an ASCII letter, and any other character itself.
pub open spec fn capital(c: char) -> char {
    if 'a' <= c <= 'z' {
        (c as int - 'a' as int + 'A' as int) as char
    } else {
        c
    }
}

/// A text with the ASCII letters made capital.
pub open spec fn capitals(s: Seq<char>) -> Seq<char> {
    s.map_values(|c: char| capital(c))
}

/// The upper case of a text, as `str::to_uppercase` gives it.
pub uninterp spec fn uppercased(s: Seq<char>) -> Seq<char>;

/// `str::to_uppercase` depends on nothing but the text. In a text of ASCII
/// characters it changes the letters to capitals and nothing else.
pub assume_specification[ str::to_uppercase ](s: &str) -> (res: String)
    ensures
        res@ == uppercased(s@),
        is_ascii_chars(s@) ==> res@ == capitals(s@),
;

/// The upper case of a text.
pub open spec fn upper_case(s: Seq<char>) -> Seq<char> {
    if is_ascii_chars(s) {
        capitals(s)
    } else {
        uppercased(s)
    }
}

/// The word for an outcome.
pub open spec fn outcome_text(outcome: Result<(), ErrorKind>) -> Seq<char> {
    match outcome {
        Ok(_) => "OK"@,
        Err(kind) => errors::kind_name(kind),
    }
}

/// The outcome that a word in upper case stands for.
pub open spec fn named_outcome(word: Seq<char>) -> Option<Result<(), ErrorKind>> {
    if word == "OK"@ {
        Some(Ok(()))
    } else {
        match errors::named_kind(word) {
            Some(kind) => Some(Err(kind)),
            None => None,
        }
    }
}

/// The outcome that a word stands for, in upper or lower case.
pub open spec fn spec_from_str(word: Seq<char>) -> Option<Result<(), ErrorKind>> {
    named_outcome(upper_case(word))
}

/// The outcome that was read, if any.
pub open spec fn tag_result(res: Result<Tag, ParseError>) -> Option<Result<(), ErrorKind>> {
    match res {
        Ok(tag) => Some(tag@),
        Err(_) => None,
    }
}

/// The word for an outcome stands for that outcome.
pub proof fn tag_text_reads_back(outcome: Result<(), ErrorKind>)
    ensures
        spec_from_str(outcome_text(outcome)) == Some(outcome),
{
    reveal_strlit("OK");
    reveal_strlit("ABSOLUTE");
    reveal_strlit("HTTP");
    reveal_strlit("HTTP_");
    reveal_strlit("IO");
    reveal_strlit("NO_FRAGMENT");
    reveal_strlit("NO_MIME");
    reveal_strlit("PREFIXED");
    reveal_strlit("PROTOCOL");
    reveal_strlit("UNRECOGNIZED_MIME");
    let word = outcome_text(outcome);
    if let Err(kind) = outcome {
        errors::kind_name_reads_back(kind);
        if let ErrorKind::HttpStatus(status) = kind {
            number::decimal_reads_back(status as nat);
            assert forall|i: int| 0 <= i < word.len() implies (word[i] as int) < 128 && capital(
                #[trigger] word[i],
            ) == word[i] by {
                if i >= 5 {
                    assert(word[i] == number::decimal(status as nat)[i - 5]);
                }
            }
        }
    }
    assert forall|i: int| 0 <= i < word.len() implies (word[i] as int) < 128 && capital(
        #[trigger] word[i],
    ) == word[i] by {}
    assert(capitals(word) =~= word);
    assert(is_ascii_chars(word));
    if let Ok(unit) = outcome {
        assert(unit == ());
    }
    assert(word != "OK"@ || outcome is Ok) by {
        if outcome is Err && word == "OK"@ {
            assert(word.len() == 2);
            assert(word[0] == 'O');
        }
    }
}

/// In ASCII text, the case of the letters does not matter.
pub proof fn case_does_not_matter(word: Seq<char>)
    requires
        is_ascii_chars(word),
    ensures
        spec_from_str(capitals(word)) == spec_from_str(word),
{
    let upper = capitals(word);
    assert forall|i: int| 0 <= i < upper.len() implies (upper[i] as int) < 128 && capital(
        #[trigger] upper[i],
    ) == upper[i] by {
        assert((word[i] as int) < 128);
    }
    assert(capitals(upper) =~= upper);
}

/// In upper case, no word but that for an outcome stands for it; in that for a status there
/// may be zeros in front of the number. What was read is the outcome of the tag.
pub proof fn upper_words_stand_for_outcomes(word: Seq<char>, res: Result<Tag, ParseError>)
    ensures
        match named_outcome(word) {
            Some(Err(ErrorKind::HttpStatus(status))) => errors::named_kind(word) == Some(
                ErrorKind::HttpStatus(status),
            ),
            Some(outcome) => word == outcome_text(outcome),
            None => forall|outcome: Result<(), ErrorKind>| word != #[trigger] outcome_text(outcome),
        },
        res is Ok ==> tag_result(res) == Some(res->Ok_0@),
        res is Err <==> tag_result(res) is None,
{
    errors::only_names_name_kinds(word);
    if named_outcome(word) is None {
        assert forall|outcome: Result<(), ErrorKind>| word != #[trigger] outcome_text(outcome) by {
            if let Err(kind) = outcome {
                errors::kind_name_reads_back(kind);
            }
        }
    }
}

/// No word but that for an outcome stands for it, whatever the case of its letters; in
/// that for a status there may be zeros in front of the number.
pub proof fn only_its_word_stands_for_an_outcome(word: Seq<char>)
    requires
        is_ascii_chars(word),
    ensures
        spec_from_str(word) is Some ==> match spec_from_str(word)->0 {
            Err(ErrorKind::HttpStatus(status)) => errors::named_kind(capitals(word)) == Some(
                ErrorKind::HttpStatus(status),
            ),
            outcome => capitals(word) == outcome_text(outcome),
        },
        spec_from_str(word) is None ==> forall|outcome: Result<(), ErrorKind>|
            capitals(word) != #[trigger] outcome_text(outcome),
        capitals(word).len() == word.len(),
        forall|i: int|
            0 <= i < word.len() ==> {
                &&& 'a' <= word[i] <= 'z' ==> #[trigger] capitals(word)[i] as int == word[i] as int
                    - 32
                &&& !('a' <= word[i] <= 'z') ==> capitals(word)[i] == word[i]
            },
{
    errors::only_names_name_kinds(capitals(word));
    if spec_from_str(word) is None {
        assert forall|outcome: Result<(), ErrorKind>| capitals(word) != #[trigger] outcome_text(
            outcome,
        ) by {
            if let Err(kind) = outcome {
                errors::kind_name_reads_back(kind);
            }
        }
    }
}

impl Tag {
    /// The tag of a link that is in order.
    pub fn ok() -> (res: Tag)
        ensures
            res@ is Ok,
    {
        Tag(Ok(()))
    }

    /// The tag of a failure.
    pub fn from_error_kind(kind: ErrorKind) -> (res: Tag)
        ensures
            res@ == Err::<(), ErrorKind>(kind),
    {
        Tag(Err(kind))
    }

    /// The tag that a word in upper case stands for.
    pub fn from_upper(word: &str) -> (res: Result<Tag, ParseError>)
        ensures
            tag_result(res) == named_outcome(word@),
    {
        if same_text(word, "OK") {
            Ok(Tag(Ok(())))
        } else {
            match ErrorKind::from_str(word) {
                Ok(kind) => Ok(Tag(Err(kind))),
                Err(err) => Err(err),
            }
        }
    }

    /// The tag that a word stands for, in upper or lower case.
    pub fn from_str(word: &str) -> (res: Result<Tag, ParseError>)
        ensures
            tag_result(res) == spec_from_str(word@),
            tag_result(res) == named_outcome(uppercased(word@)),
    {
        let upper = word.to_uppercase();
        Tag::from_upper(&upper)
    }

    /// The word for the tag.
    pub fn text(&self) -> (res: String)
        ensures
            res@ == outcome_text(self@),
    {
        match &self.0 {
            Ok(()) => "OK".to_owned(),
            Err(kind) => kind.name(),
        }
    }
}

} // verus!
