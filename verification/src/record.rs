//! Where a link was found.
use vstd::prelude::*;
use vstd::string::*;
use crate::number;
use crate::number::parse_usize;

verus! {

/// A link, and where it was found.
#[derive(Debug)]
pub struct Record {
    /// The document.
    pub path: String,
    /// The line in it, counted from one.
    pub linenum: usize,
    /// The link.
    pub link: String,
}

/// A record as a mathematical value.
pub struct RecordView {
    pub path: Seq<char>,
    pub linenum: nat,
    pub link: Seq<char>,
}

impl View for Record {
    type V = RecordView;

    open spec fn view(&self) -> RecordView {
        RecordView { path: self.path@, linenum: self.linenum as nat, link: self.link@ }
    }
}

/// The form of a line that records a link: the path, the line number, a tag and the link.
pub const RECORD_REGEX: &'static str = "^(.*):(\\d+): [^ ]* ([^ ]*)$";

/// The line that records a link: the path, the digits of the line number, a tag and
/// the link.
pub open spec fn record_line(
    path: Seq<char>,
    digits: Seq<char>,
    tag: Seq<char>,
    link: Seq<char>,
) -> Seq<char> {
    path + seq![':'] + digits + seq![':', ' '] + tag + seq![' '] + link
}

/// Whether every ASCII character of a text is a digit. The others may be digits of
/// other scripts.
pub open spec fn may_be_digits(s: Seq<char>) -> bool {
    s.len() > 0 && forall|i: int|
        0 <= i < s.len() ==> (#[trigger] s[i] <= '\u{7f}' ==> number::is_digit(s[i]))
}

/// Whether `line` consists of these parts: there is no line break in the path, what
/// may be digits are digits, and there is no space in the tag or in the link.
pub open spec fn has_parts(
    line: Seq<char>,
    path: Seq<char>,
    digits: Seq<char>,
    tag: Seq<char>,
    link: Seq<char>,
) -> bool {
    &&& line == record_line(path, digits, tag, link)
    &&& !path.contains('\n')
    &&& may_be_digits(digits)
    &&& !tag.contains(' ')
    &&& !link.contains(' ')
}

/// The groups that a regular expression captures in a text.
pub open spec fn groups_view(res: Option<Vec<Option<String>>>) -> Option<Seq<Option<Seq<char>>>> {
    match res {
        Some(groups) => Some(
            Seq::new(
                groups@.len(),
                |i: int|
                    match groups@[i] {
                        Some(group) => Some(group@),
                        None => None,
                    },
            ),
        ),
        None => None,
    }
}

/// What `regex::Regex::captures` finds in a text, if the pattern is a regular
/// expression.
pub uninterp spec fn regex_captured(pattern: Seq<char>, text: Seq<char>) -> Option<
    Seq<Option<Seq<char>>>,
>;

/// Whether `groups` are the groups of a match of the record form on `line`: the whole
/// line, the path, the digits and the link.
pub open spec fn are_record_groups(line: Seq<char>, groups: Seq<Option<Seq<char>>>) -> bool {
    &&& groups.len() == 4
    &&& groups[1] is Some && groups[2] is Some && groups[3] is Some
    &&& exists|tag: Seq<char>| #[trigger]
        has_parts(line, groups[1]->0, groups[2]->0, tag, groups[3]->0)
}

/// Compiles the pattern with `regex::Regex::new` and matches it with `captures`;
/// `None` if the pattern is not a regular expression or does not match. The result is
/// a function of the arguments. For the record form it is stated which lines match,
/// and what the groups are; which characters outside ASCII are digits is not stated.
#[verifier::external_body]
fn captures(pattern: &str, text: &str) -> (res: Option<Vec<Option<String>>>)
    ensures
        groups_view(res) == regex_captured(pattern@, text@),
        pattern@ == RECORD_REGEX@ && res is Some ==> are_record_groups(
            text@,
            groups_view(res)->0,
        ),
        pattern@ == RECORD_REGEX@ && res is None ==> forall|
            path: Seq<char>,
            digits: Seq<char>,
            tag: Seq<char>,
            link: Seq<char>,
        |
            number::is_digits(digits) ==> !#[trigger] has_parts(text@, path, digits, tag, link),
{
    let found = regex::Regex::new(pattern).ok()?.captures(text)?;
    Some(found.iter().map(|group| group.map(|group| group.as_str().to_string())).collect())
}

/// A text has at most one split at a character that does not occur behind it.
proof fn lemma_last_split(a1: Seq<char>, b1: Seq<char>, a2: Seq<char>, b2: Seq<char>, c: char)
    requires
        a1 + seq![c] + b1 == a2 + seq![c] + b2,
        !b1.contains(c),
        !b2.contains(c),
    ensures
        a1 == a2,
        b1 == b2,
{
    let s = a1 + seq![c] + b1;
    let t = a2 + seq![c] + b2;
    let n1 = a1.len() as int;
    let n2 = a2.len() as int;
    assert(s.len() == n1 + 1 + b1.len() && t.len() == n2 + 1 + b2.len());
    assert(s[n1] == c);
    assert(t[n2] == c);
    if n1 < n2 {
        assert(s[n2] == b1[n2 - n1 - 1]);
        assert(b1.contains(c));
    } else if n2 < n1 {
        assert(t[n1] == b2[n1 - n2 - 1]);
        assert(b2.contains(c));
    }
    assert(a1 =~= s.take(n1));
    assert(a2 =~= t.take(n2));
    assert(b1 =~= s.skip(n1 + 1));
    assert(b2 =~= t.skip(n2 + 1));
}

/// What may be digits is neither a colon nor a space.
proof fn lemma_no_colon(digits: Seq<char>)
    requires
        may_be_digits(digits),
    ensures
        !digits.contains(':'),
{
    if digits.contains(':') {
        let i = choose|i: int| 0 <= i < digits.len() && digits[i] == ':';
        assert(number::is_digit(digits[i]));
    }
}

/// A line records at most one link.
pub proof fn parts_are_unique(
    line: Seq<char>,
    path1: Seq<char>,
    digits1: Seq<char>,
    tag1: Seq<char>,
    link1: Seq<char>,
    path2: Seq<char>,
    digits2: Seq<char>,
    tag2: Seq<char>,
    link2: Seq<char>,
)
    requires
        has_parts(line, path1, digits1, tag1, link1),
        has_parts(line, path2, digits2, tag2, link2),
    ensures
        path1 == path2,
        digits1 == digits2,
        tag1 == tag2,
        link1 == link2,
{
    let front1 = path1 + seq![':'] + digits1;
    let front2 = path2 + seq![':'] + digits2;
    lemma_last_split(
        front1 + seq![':', ' '] + tag1,
        link1,
        front2 + seq![':', ' '] + tag2,
        link2,
        ' ',
    );
    assert(front1 + seq![':', ' '] + tag1 =~= front1.push(':') + seq![' '] + tag1);
    assert(front2 + seq![':', ' '] + tag2 =~= front2.push(':') + seq![' '] + tag2);
    lemma_last_split(front1.push(':'), tag1, front2.push(':'), tag2, ' ');
    assert(front1 =~= front1.push(':').drop_last());
    assert(front2 =~= front2.push(':').drop_last());
    lemma_no_colon(digits1);
    lemma_no_colon(digits2);
    lemma_last_split(path1, digits1, path2, digits2, ':');
}

/// What the captured groups of the record form record.
pub open spec fn captured_record(groups: Option<Seq<Option<Seq<char>>>>) -> Option<RecordView> {
    match groups {
        Some(groups) => Some(
            RecordView {
                path: groups[1]->0,
                linenum: number::usize_value(groups[2]->0)->0 as nat,
                link: groups[3]->0,
            },
        ),
        None => None,
    }
}

/// Whether the captured groups hold a line number that fits.
pub open spec fn number_fits(groups: Option<Seq<Option<Seq<char>>>>) -> bool {
    groups is Some ==> groups->0.len() == 4 && groups->0[2] is Some && number::usize_value(
        groups->0[2]->0,
    ) is Some
}

/// The record that was read, if any.
pub open spec fn record_result(res: Result<Record, ()>) -> Option<RecordView> {
    match res {
        Ok(record) => Some(record@),
        Err(_) => None,
    }
}

/// Whether `record` is what a line records: its parts with the line number in decimal
/// digits, or nothing where it has no such parts.
pub open spec fn is_recorded(line: Seq<char>, record: Option<RecordView>) -> bool {
    match record {
        Some(record) => exists|digits: Seq<char>, tag: Seq<char>| #[trigger]
            has_parts(line, record.path, digits, tag, record.link) && number::is_digits(digits)
                && record.linenum == number::decimal_value(digits),
        None => forall|path: Seq<char>, digits: Seq<char>, tag: Seq<char>, link: Seq<char>|
            number::is_digits(digits) ==> !#[trigger] has_parts(line, path, digits, tag, link),
    }
}

/// A line of the form of a record is read as its parts: the path up to the last colon that
/// digits, a colon, a space, a word, a space and a word follow, the number that the digits
/// denote, and the last word.
pub proof fn line_is_read_by_its_parts(
    path: Seq<char>,
    digits: Seq<char>,
    tag: Seq<char>,
    link: Seq<char>,
    read: Option<RecordView>,
)
    requires
        !path.contains('\n'),
        digits.len() > 0,
        forall|i: int| 0 <= i < digits.len() ==> '0' <= #[trigger] digits[i] <= '9',
        !tag.contains(' '),
        !link.contains(' '),
        is_recorded(path + seq![':'] + digits + seq![':', ' '] + tag + seq![' '] + link, read),
    ensures
        read is Some,
        read->0.path == path,
        read->0.linenum == number::decimal_value(digits),
        read->0.link == link,
{
    let line = path + seq![':'] + digits + seq![':', ' '] + tag + seq![' '] + link;
    assert(number::is_digits(digits));
    assert(may_be_digits(digits));
    assert(has_parts(line, path, digits, tag, link));
    if let Some(other) = read {
        let (digits2, tag2) = choose|digits2: Seq<char>, tag2: Seq<char>| #[trigger]
            has_parts(line, other.path, digits2, tag2, other.link) && number::is_digits(digits2)
                && other.linenum == number::decimal_value(digits2);
        parts_are_unique(line, path, digits, tag, link, other.path, digits2, tag2, other.link);
    }
}

/// A line is only read as a record if it has the form of one.
pub proof fn only_records_are_read(line: Seq<char>, read: RecordView) -> (res: (
    Seq<char>,
    Seq<char>,
))
    requires
        is_recorded(line, Some(read)),
    ensures
        line == read.path + seq![':'] + res.0 + seq![':', ' '] + res.1 + seq![' '] + read.link,
        !read.path.contains('\n'),
        res.0.len() > 0,
        forall|i: int| 0 <= i < res.0.len() ==> '0' <= #[trigger] res.0[i] <= '9',
        read.linenum == number::decimal_value(res.0),
        !res.1.contains(' '),
        !read.link.contains(' '),
{
    let (digits, tag) = choose|digits: Seq<char>, tag: Seq<char>| #[trigger]
        has_parts(line, read.path, digits, tag, read.link) && number::is_digits(digits)
            && read.linenum == number::decimal_value(digits);
    assert forall|i: int| 0 <= i < digits.len() implies '0' <= #[trigger] digits[i] <= '9' by {
        assert(number::is_digit(digits[i]));
    }
    (digits, tag)
}

/// What is captured is recorded: the first group as the path, the second as the number of
/// the line and the third as the link.
pub proof fn groups_are_recorded_in_order(
    groups: Seq<Option<Seq<char>>>,
    res: Result<Record, ()>,
    list: Vec<Option<String>>,
)
    ensures
        RECORD_REGEX@ == "^(.*):(\\d+): [^ ]* ([^ ]*)$"@,
        captured_record(None) is None,
        captured_record(Some(groups)) is Some,
        groups.len() == 4 && groups[1] is Some ==> captured_record(Some(groups))->0.path
            == groups[1]->0,
        groups.len() == 4 && groups[2] is Some && number::usize_value(groups[2]->0) is Some
            ==> captured_record(Some(groups))->0.linenum == number::usize_value(groups[2]->0)->0,
        groups.len() == 4 && groups[3] is Some ==> captured_record(Some(groups))->0.link
            == groups[3]->0,
        res is Err <==> record_result(res) is None,
        res is Ok ==> {
            &&& record_result(res)->0.path == res->Ok_0.path@
            &&& record_result(res)->0.linenum == res->Ok_0.linenum
            &&& record_result(res)->0.link == res->Ok_0.link@
        },
        groups_view(None) is None,
        groups_view(Some(list)) is Some && groups_view(Some(list))->0.len() == list@.len(),
        forall|i: int|
            0 <= i < list@.len() ==> (#[trigger] groups_view(Some(list))->0[i] is Some
                <==> list@[i] is Some) && (list@[i] is Some ==> groups_view(Some(list))->0[i]
                == Some(list@[i]->0@)),
{
}

/// A line number fits exactly when the digits were captured and denote a number that does.
pub proof fn number_fits_exactly_when_it_is_read(groups: Seq<Option<Seq<char>>>)
    ensures
        number_fits(None),
        groups.len() == 4 && groups[2] is Some ==> (number_fits(Some(groups))
            <==> number::usize_value(groups[2]->0) is Some),
{
}

/// A record that is written as a line is what the line records, whatever the tag.
/// There must be no line break in the path, and no space in the tag or in the link.
pub proof fn record_line_reads_back(
    record: RecordView,
    tag: Seq<char>,
    read: Option<RecordView>,
)
    requires
        !record.path.contains('\n'),
        !tag.contains(' '),
        !record.link.contains(' '),
        is_recorded(
            record_line(record.path, number::decimal(record.linenum), tag, record.link),
            read,
        ),
    ensures
        read == Some(record),
{
    let digits = number::decimal(record.linenum);
    let line = record_line(record.path, digits, tag, record.link);
    number::decimal_reads_back(record.linenum);
    assert(may_be_digits(digits));
    assert(has_parts(line, record.path, digits, tag, record.link));
    if let Some(other) = read {
        let (digits2, tag2) = choose|digits2: Seq<char>, tag2: Seq<char>| #[trigger]
            has_parts(line, other.path, digits2, tag2, other.link) && number::is_digits(digits2)
                && other.linenum == number::decimal_value(digits2);
        parts_are_unique(
            line,
            record.path,
            digits,
            tag,
            record.link,
            other.path,
            digits2,
            tag2,
            other.link,
        );
    }
}

/// A line records one thing only.
pub proof fn record_is_unique(line: Seq<char>, a: Option<RecordView>, b: Option<RecordView>)
    requires
        is_recorded(line, a),
        is_recorded(line, b),
    ensures
        a == b,
{
    if a is Some && b is Some {
        let (a, b) = (a->0, b->0);
        let (digits1, tag1) = choose|digits: Seq<char>, tag: Seq<char>| #[trigger]
            has_parts(line, a.path, digits, tag, a.link) && number::is_digits(digits) && a.linenum
                == number::decimal_value(digits);
        let (digits2, tag2) = choose|digits: Seq<char>, tag: Seq<char>| #[trigger]
            has_parts(line, b.path, digits, tag, b.link) && number::is_digits(digits) && b.linenum
                == number::decimal_value(digits);
        parts_are_unique(line, a.path, digits1, tag1, a.link, b.path, digits2, tag2, b.link);
    }
}

impl Record {
    /// The record that the captured groups of the record form hold.
    pub fn from_captures(groups: Option<Vec<Option<String>>>) -> (res: Result<Record, ()>)
        requires
            groups is Some ==> groups_view(groups)->0.len() == 4 && groups_view(groups)->0[1] is Some
                && groups_view(groups)->0[3] is Some,
            number_fits(groups_view(groups)),
        ensures
            record_result(res) == captured_record(groups_view(groups)),
    {
        match groups {
            Some(groups) => {
                let ghost all = groups_view(Some(groups))->0;
                assert(all[1] is Some && all[2] is Some && all[3] is Some);
                let path = groups[1].as_ref().unwrap().clone();
                let linenum = parse_usize(groups[2].as_ref().unwrap()).unwrap();
                let link = groups[3].as_ref().unwrap().clone();
                Ok(Record { path, linenum, link })
            },
            None => Err(()),
        }
    }

    /// Reads the record that a line holds. The line number must fit.
    pub fn from_str(line: &str) -> (res: Result<Record, ()>)
        requires
            number_fits(regex_captured(RECORD_REGEX@, line@)),
        ensures
            record_result(res) == captured_record(regex_captured(RECORD_REGEX@, line@)),
            is_recorded(line@, record_result(res)),
    {
        let groups = captures(RECORD_REGEX, line);
        let ghost all = groups_view(groups);
        proof {
            if all is Some {
                let digits = all->0[2]->0;
                let tag = choose|tag: Seq<char>| #[trigger]
                    has_parts(line@, all->0[1]->0, digits, tag, all->0[3]->0);
                assert(digits[0] != '+') by {
                    assert(digits[0] <= '\u{7f}' ==> number::is_digit(digits[0]));
                }
                assert(number::is_digits(digits));
                let record = captured_record(all)->0;
                assert(has_parts(line@, record.path, digits, tag, record.link));
            }
            assert(is_recorded(line@, captured_record(all)));
        }
        Record::from_captures(groups)
    }

    /// Reads the record that a line holds, or gives `None` where the line has the form
    /// of a record but its line number does not fit.
    pub fn try_from_str(line: &str) -> (res: Option<Result<Record, ()>>)
        ensures
            res is Some <==> number_fits(regex_captured(RECORD_REGEX@, line@)),
            res is Some ==> record_result(res->0) == captured_record(
                regex_captured(RECORD_REGEX@, line@),
            ) && is_recorded(line@, record_result(res->0)),
            forall|path: Seq<char>, digits: Seq<char>, tag: Seq<char>, link: Seq<char>| #[trigger]
                has_parts(line@, path, digits, tag, link) && number::is_digits(digits) ==> (res
                    is Some <==> number::decimal_value(digits) <= usize::MAX),
            (forall|path: Seq<char>, digits: Seq<char>, tag: Seq<char>, link: Seq<char>|
                !#[trigger] has_parts(line@, path, digits, tag, link)) ==> res is Some,
    {
        let groups = captures(RECORD_REGEX, line);
        let ghost all = groups_view(groups);
        proof {
            if all is Some {
                let found = all->0[2]->0;
                let tag1 = choose|tag: Seq<char>| #[trigger]
                    has_parts(line@, all->0[1]->0, found, tag, all->0[3]->0);
                assert forall|path: Seq<char>, digits: Seq<char>, tag: Seq<char>, link: Seq<char>|
                    #[trigger] has_parts(line@, path, digits, tag, link) && number::is_digits(
                        digits,
                    ) implies digits == found by {
                    parts_are_unique(
                        line@,
                        path,
                        digits,
                        tag,
                        link,
                        all->0[1]->0,
                        found,
                        tag1,
                        all->0[3]->0,
                    );
                }
            }
        }
        if let Some(groups) = &groups {
            assert(all->0[2] is Some);
            if parse_usize(groups[2].as_ref().unwrap()).is_none() {
                return None;
            }
        }
        Some(Record::from_str(line))
    }
}

} // verus!
