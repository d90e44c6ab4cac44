//! Decimal numbers as text.
use vstd::prelude::*;
use vstd::string::*;
use crate::text::concat;

verus! {

/// Whether `c` is one of the characters `0` to `9`.
pub open spec fn is_digit(c: char) -> bool {
    '0' <= c <= '9'
}

/// Whether `s` is one or more of the characters `0` to `9`.
pub open spec fn is_digits(s: Seq<char>) -> bool {
    s.len() > 0 && forall|i: int| 0 <= i < s.len() ==> is_digit(#[trigger] s[i])
}

/// The number that a text of decimal digits denotes.
pub open spec fn decimal_value(s: Seq<char>) -> nat
    decreases s.len(),
{
    if s.len() == 0 {
        0
    } else {
        (decimal_value(s.drop_last()) * 10 + (s.last() as int - '0' as int)) as nat
    }
}

/// The decimal digit for a number below ten.
pub open spec fn digit_char(n: nat) -> char {
    ('0' as int + n) as char
}

/// The decimal digits of `n`, without leading zeros.
pub open spec fn decimal(n: nat) -> Seq<char>
    decreases n,
{
    if n < 10 {
        seq![digit_char(n)]
    } else {
        decimal(n / 10).push(digit_char(n % 10))
    }
}

/// Reading a number's decimal digits gives back the number.
pub proof fn decimal_reads_back(n: nat)
    ensures
        is_digits(decimal(n)),
        decimal_value(decimal(n)) == n,
    decreases n,
{
    if n < 10 {
        let s = decimal(n);
        assert(s.drop_last() =~= Seq::<char>::empty());
        assert(decimal_value(s.drop_last()) == 0);
    } else {
        decimal_reads_back(n / 10);
        let s = decimal(n);
        assert(s.drop_last() =~= decimal(n / 10));
        assert forall|i: int| 0 <= i < s.len() implies is_digit(#[trigger] s[i]) by {
            if i < s.len() - 1 {
                assert(s[i] == decimal(n / 10)[i]);
            }
        }
    }
}

/// Each digit behind others adds its value to ten times theirs, and no digits denote 0.
/// Digits are the characters from `0` to `9`.
pub proof fn digits_denote_by_place(s: Seq<char>, c: char)
    ensures
        decimal_value(Seq::<char>::empty()) == 0,
        '0' <= c <= '9' ==> decimal_value(s.push(c)) == 10 * decimal_value(s) + (c as int
            - '0' as int),
        is_digits(s) <==> s.len() > 0 && forall|i: int|
            0 <= i < s.len() ==> '0' <= #[trigger] s[i] <= '9',
{
    assert(s.push(c).drop_last() =~= s);
}

/// Only the number 0 is written with a zero in front, which is then all there is.
pub proof fn decimal_has_no_leading_zeros(n: nat)
    ensures
        decimal(n).len() > 0,
        decimal(n)[0] == '0' ==> n == 0,
        n == 0 ==> decimal(n) == seq!['0'],
    decreases n,
{
    if n >= 10 {
        decimal_has_no_leading_zeros(n / 10);
        assert(decimal(n)[0] == decimal(n / 10)[0]);
    }
}

/// A number is read from its digits, with or without a `+` in front, exactly when there are
/// digits and nothing else, and the number fits.
pub proof fn number_is_read_from_digits(s: Seq<char>, digits: Seq<char>)
    requires
        s == digits || s == seq!['+'] + digits,
    ensures
        digits.len() > 0 && (forall|i: int| 0 <= i < digits.len() ==> '0' <= #[trigger] digits[i]
            <= '9') && decimal_value(digits) <= usize::MAX ==> usize_value(s) is Some
            && usize_value(s)->0 == decimal_value(digits),
        usize_value(s) is Some && (s == digits ==> !(s.len() > 0 && s[0] == '+')) ==> digits.len()
            > 0 && (forall|i: int| 0 <= i < digits.len() ==> '0' <= #[trigger] digits[i] <= '9')
            && decimal_value(digits) <= usize::MAX,
{
    digits_denote_by_place(digits, '0');
    if s == seq!['+'] + digits {
        assert(s.skip(1) =~= digits);
        assert(s[0] == '+');
        assert(unsigned_part(s) == digits);
    }
    if digits.len() > 0 && digits[0] == '+' && is_digits(digits) {
        assert(is_digit(digits[0]));
    }
}

/// The text of a number below ten.
fn digit_text(n: usize) -> (res: &'static str)
    requires
        n < 10,
    ensures
        res@ == seq![digit_char(n as nat)],
{
    proof {
        reveal_strlit("0");
        reveal_strlit("1");
        reveal_strlit("2");
        reveal_strlit("3");
        reveal_strlit("4");
        reveal_strlit("5");
        reveal_strlit("6");
        reveal_strlit("7");
        reveal_strlit("8");
        reveal_strlit("9");
    }
    match n {
        0 => "0",
        1 => "1",
        2 => "2",
        3 => "3",
        4 => "4",
        5 => "5",
        6 => "6",
        7 => "7",
        8 => "8",
        _ => "9",
    }
}

/// The decimal digits of a number, without leading zeros.
pub fn usize_text(n: usize) -> (res: String)
    ensures
        res@ == decimal(n as nat),
    decreases n,
{
    if n < 10 {
        return digit_text(n).to_owned();
    }
    let res = concat(&usize_text(n / 10), digit_text(n % 10));
    assert(res@ =~= decimal(n as nat));
    res
}

/// The digits that `str::parse::<usize>` reads: the text without one leading `+`.
pub open spec fn unsigned_part(s: Seq<char>) -> Seq<char> {
    if s.len() > 0 && s[0] == '+' {
        s.skip(1)
    } else {
        s
    }
}

/// The number that `str::parse::<usize>` reads from a text: an optional `+` and one
/// or more decimal digits, of a value that fits; `None` for any other text.
pub open spec fn usize_value(s: Seq<char>) -> Option<usize> {
    let digits = unsigned_part(s);
    if is_digits(digits) && decimal_value(digits) <= usize::MAX {
        Some(decimal_value(digits) as usize)
    } else {
        None
    }
}

/// Reads a number with `str::parse::<usize>`, which accepts an optional `+` followed
/// by one or more decimal digits, and fails on any other text and on a number that
/// does not fit.
#[verifier::external_body]
pub(crate) fn parse_usize(s: &str) -> (res: Option<usize>)
    ensures
        res == usize_value(s@),
{
    s.parse::<usize>().ok()
}

} // verus!
