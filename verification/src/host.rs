//! The host that a URL names: where it stands in a text, and whether its labels can be
//! encoded for the domain name system.
use vstd::prelude::*;
use vstd::slice::slice_subrange;
use vstd::string::*;
use crate::text;
use crate::text::to_chars;

verus! {

/// Whether a URL is read as if the character were not there.
pub open spec fn is_ignored(c: char) -> bool {
    c == '\t' || c == '\n' || c == '\r'
}

/// Whether the character is neither a space nor one of the control characters that come
/// before it.
pub open spec fn visible() -> spec_fn(char) -> bool {
    |c: char| c > ' '
}

/// Whether the character separates the parts of a path.
pub open spec fn is_slash(c: char) -> bool {
    c == '/' || c == '\\'
}

/// Whether the character does not separate the parts of a path.
pub open spec fn no_slash() -> spec_fn(char) -> bool {
    |c: char| !is_slash(c)
}

/// Whether the character ends what stands before the path, the query and the fragment.
pub open spec fn ends_authority() -> spec_fn(char) -> bool {
    |c: char| is_slash(c) || c == '?' || c == '#'
}

/// The text of a URL without the characters that are ignored, and without what is not
/// visible in front.
pub open spec fn cleaned(text: Seq<char>) -> Seq<char> {
    let s = text.filter(|c: char| !is_ignored(c));
    s.skip(text::first_where(s, visible()))
}

/// The small letter of a letter of ASCII; any other character itself.
pub open spec fn small_letter(c: char) -> char {
    if 'A' <= c <= 'Z' {
        (c as u32 + 32) as char
    } else {
        c
    }
}

/// Whether `s` is `name` in capital or small letters.
pub open spec fn is_name(s: Seq<char>, name: Seq<char>) -> bool {
    s.len() == name.len() && forall|i: int| 0 <= i < s.len() ==> small_letter(s[i]) == name[i]
}

/// Whether a URL with this scheme names a server.
pub open spec fn has_server(scheme: Seq<char>) -> bool {
    ||| is_name(scheme, "http"@)
    ||| is_name(scheme, "https"@)
    ||| is_name(scheme, "ws"@)
    ||| is_name(scheme, "wss"@)
    ||| is_name(scheme, "ftp"@)
    ||| is_name(scheme, "gopher"@)
}

/// What stands before the path, the query and the fragment.
pub open spec fn authority(s: Seq<char>) -> Seq<char> {
    s.take(text::first_where(s, ends_authority()))
}

/// The host and the port of an authority, which may name a user too.
pub open spec fn behind_user(s: Seq<char>) -> Seq<char> {
    s.skip(text::behind_last(s, '@'))
}

/// The host, with the port if there is one, that is to be encoded where a text is
/// parsed as a URL. There is none in URLs that name neither a server nor a file.
pub open spec fn host_part(text: Seq<char>) -> Seq<char> {
    let s = cleaned(text);
    let n = text::first_index(s, ':');
    let scheme = s.take(n);
    let rest = s.skip(n + 1);
    if n == s.len() {
        Seq::empty()
    } else if is_name(scheme, "file"@) {
        if rest.len() >= 2 && is_slash(rest[0]) && is_slash(rest[1]) {
            authority(rest.skip(2))
        } else {
            Seq::empty()
        }
    } else if has_server(scheme) {
        behind_user(authority(rest.skip(text::first_where(rest, no_slash()))))
    } else {
        Seq::empty()
    }
}

/// Whether a label is given in its encoded form.
pub open spec fn is_encoded(label: Seq<char>) -> bool {
    label.len() >= 4 && is_name(label.take(4), "xn--"@)
}

/// Whether a label needs no encoding, however long it is.
pub open spec fn is_plain(label: Seq<char>) -> bool {
    !is_encoded(label) && forall|i: int| 0 <= i < label.len() ==> label[i] <= '\u{7f}' && label[i]
        != '%'
}

/// The most characters that a character of a label becomes where `idna` maps and
/// normalizes it. A `%` stands for a byte, and may be the third part of the character that
/// becomes the most.
pub open spec fn width(c: char) -> nat {
    if c <= '\u{7f}' && c != '%' {
        1
    } else if c == '\u{fdfa}' {
        18
    } else {
        8
    }
}

/// A code point above all those that a character of a label becomes, or helps to become,
/// where `idna` maps and normalizes it. Of a `%` nothing is known, and a character that is
/// or becomes a hyphen may mark a label in its encoded form, which stands for any others.
pub open spec fn reach(c: char) -> nat {
    if c <= '\u{7f}' {
        if c == '%' || c == '-' {
            0x110000
        } else {
            0x80
        }
    } else if c >= '\u{30000}' {
        0x110000
    } else if c >= '\u{10000}' {
        0x30000
    } else if c >= '\u{f900}' {
        0x110000
    } else if c >= '\u{800}' {
        0xf900
    } else {
        0x3000
    }
}

/// The most characters that a label becomes.
pub open spec fn label_width(label: Seq<char>) -> nat
    decreases label.len(),
{
    if label.len() == 0 {
        0
    } else {
        label_width(label.drop_last()) + width(label.last())
    }
}

/// A code point above all those that the characters of a label become.
pub open spec fn label_reach(label: Seq<char>) -> nat
    decreases label.len(),
{
    if label.len() == 0 {
        0x80
    } else if label_reach(label.drop_last()) < reach(label.last()) {
        reach(label.last())
    } else {
        label_reach(label.drop_last())
    }
}

/// Whether encoding a label cannot overflow: the sums in it are less than the number of
/// characters, times a code point above them all. A plain label is not encoded.
pub open spec fn is_encodable(label: Seq<char>) -> bool {
    is_plain(label) || label_width(label) * label_reach(label) <= u32::MAX
}

/// Whether all labels of a host can be encoded. They stand between dots.
pub open spec fn has_encodable_labels(host: Seq<char>) -> bool
    decreases host.len(),
{
    let n = text::first_index(host, '.');
    &&& is_encodable(host.take(n))
    &&& 0 <= n < host.len() ==> has_encodable_labels(host.skip(n + 1))
}

/// Whether some label of a host is given in its encoded form.
pub open spec fn has_encoded_label(host: Seq<char>) -> bool
    decreases host.len(),
{
    let n = text::first_index(host, '.');
    ||| is_encoded(host.take(n))
    ||| 0 <= n < host.len() && has_encoded_label(host.skip(n + 1))
}

/// What is left of a text is no longer than the text, and has no other characters.
proof fn lemma_piece(text: Seq<char>, s: Seq<char>, a: int, b: int)
    requires
        s.len() <= text.len(),
        forall|i: int| 0 <= i < s.len() ==> text.contains(#[trigger] s[i]),
        0 <= a <= b <= s.len(),
    ensures
        s.subrange(a, b).len() <= text.len(),
        forall|i: int| 0 <= i < s.subrange(a, b).len() ==> text.contains(#[trigger] s.subrange(a, b)[i]),
{
    let piece = s.subrange(a, b);
    assert forall|i: int| 0 <= i < piece.len() implies text.contains(#[trigger] piece[i]) by {
        assert(piece[i] == s[a + i]);
    }
}

/// The first position with a property is in the text, or its length.
proof fn lemma_first_where_bound(s: Seq<char>, f: spec_fn(char) -> bool)
    ensures
        0 <= text::first_where(s, f) <= s.len(),
    decreases s.len(),
{
    if s.len() > 0 && !f(s[0]) {
        lemma_first_where_bound(s.skip(1), f);
    }
}

/// What is kept of a text is no longer, and has no other characters.
proof fn lemma_kept(text: Seq<char>)
    ensures
        ({
            let s = text.filter(|c: char| !is_ignored(c));
            &&& s.len() <= text.len()
            &&& forall|i: int| 0 <= i < s.len() ==> text.contains(#[trigger] s[i])
        }),
    decreases text.len(),
{
    let keep = |c: char| !is_ignored(c);
    let s = text.filter(keep);
    reveal(Seq::filter);
    if text.len() > 0 {
        let front = text.drop_last();
        lemma_kept(front);
        let t = front.filter(keep);
        assert forall|i: int| 0 <= i < s.len() implies text.contains(#[trigger] s[i]) by {
            if i < t.len() {
                assert(front.contains(t[i]));
                let k = choose|k: int| 0 <= k < front.len() && front[k] == t[i];
                assert(text[k] == s[i]);
            } else {
                assert(text[text.len() - 1] == s[i]);
            }
        }
    }
}

/// The host is a piece of what is kept of the text.
pub(crate) proof fn lemma_host_part(text: Seq<char>)
    ensures
        host_part(text).len() <= text.len(),
        forall|i: int| 0 <= i < host_part(text).len() ==> text.contains(#[trigger] host_part(text)[i]),
{
    let kept = text.filter(|c: char| !is_ignored(c));
    lemma_kept(text);
    let m = text::first_where(kept, visible());
    lemma_first_where_bound(kept, visible());
    lemma_piece(text, kept, m, kept.len() as int);
    let s = cleaned(text);
    assert(s =~= kept.subrange(m, kept.len() as int));
    text::lemma_first_index(s, ':');
    let n = text::first_index(s, ':');
    if n < s.len() {
        let rest = s.skip(n + 1);
        lemma_piece(text, s, n + 1, s.len() as int);
        assert(rest =~= s.subrange(n + 1, s.len() as int));
        let k = if is_name(s.take(n), "file"@) {
            2
        } else {
            text::first_where(rest, no_slash())
        };
        lemma_first_where_bound(rest, no_slash());
        if k <= rest.len() {
            let behind = rest.skip(k);
            lemma_piece(text, rest, k, rest.len() as int);
            assert(behind =~= rest.subrange(k, rest.len() as int));
            let e = text::first_where(behind, ends_authority());
            lemma_first_where_bound(behind, ends_authority());
            lemma_piece(text, behind, 0, e);
            let all = authority(behind);
            assert(all =~= behind.subrange(0, e));
            text::lemma_behind_last(all, '@');
            let u = text::behind_last(all, '@');
            lemma_piece(text, all, u, all.len() as int);
            assert(behind_user(all) =~= all.subrange(u, all.len() as int));
        }
    }
}

/// A label becomes at most 18 characters for each, below the greatest code point.
proof fn lemma_label_bounds(label: Seq<char>)
    ensures
        label_width(label) <= 18 * label.len(),
        label_reach(label) <= 0x110000,
    decreases label.len(),
{
    if label.len() > 0 {
        lemma_label_bounds(label.drop_last());
    }
}

/// The labels of a short host can be encoded.
pub(crate) proof fn lemma_short_host(host: Seq<char>)
    requires
        host.len() <= 214,
    ensures
        has_encodable_labels(host),
    decreases host.len(),
{
    text::lemma_first_index(host, '.');
    let n = text::first_index(host, '.');
    let label = host.take(n);
    lemma_label_bounds(label);
    let w = label_width(label);
    let r = label_reach(label);
    assert(w * r <= 3852 * 0x110000) by (nonlinear_arith)
        requires
            w <= 3852,
            r <= 0x110000,
    ;
    if n < host.len() {
        lemma_short_host(host.skip(n + 1));
    }
}

/// The labels of a host in ASCII without `%` and `-` are plain.
pub(crate) proof fn lemma_plain_host(host: Seq<char>)
    requires
        forall|i: int|
            0 <= i < host.len() ==> #[trigger] host[i] <= '\u{7f}' && host[i] != '%' && host[i] != '-',
    ensures
        has_encodable_labels(host),
    decreases host.len(),
{
    text::lemma_first_index(host, '.');
    let n = text::first_index(host, '.');
    let label = host.take(n);
    assert forall|i: int| 0 <= i < label.len() implies #[trigger] label[i] <= '\u{7f}' && label[i]
        != '%' && label[i] != '-' by {
        assert(label[i] == host[i]);
    }
    reveal_strlit("xn--");
    if is_encoded(label) {
        let mark = label.take(4);
        assert(small_letter(mark[2]) == "xn--"@[2]);
        assert(mark[2] == label[2]);
    }
    if n < host.len() {
        let rest = host.skip(n + 1);
        assert forall|i: int| 0 <= i < rest.len() implies #[trigger] rest[i] <= '\u{7f}' && rest[i]
            != '%' && rest[i] != '-' by {
            assert(rest[i] == host[n + 1 + i]);
        }
        lemma_plain_host(rest);
    }
}

/// Where all characters are visible, nothing is left out in front or between.
proof fn lemma_cleaned(text: Seq<char>)
    requires
        forall|i: int| 0 <= i < text.len() ==> #[trigger] text[i] > ' ',
    ensures
        cleaned(text) == text,
{
    lemma_all_kept(text);
    if text.len() > 0 {
        assert(text[0] > ' ');
    }
    assert(text.skip(0) =~= text);
}

/// Where all characters are visible, all are kept.
proof fn lemma_all_kept(text: Seq<char>)
    requires
        forall|i: int| 0 <= i < text.len() ==> #[trigger] text[i] > ' ',
    ensures
        text.filter(|c: char| !is_ignored(c)) == text,
    decreases text.len(),
{
    reveal(Seq::filter);
    if text.len() > 0 {
        let front = text.drop_last();
        assert forall|i: int| 0 <= i < front.len() implies #[trigger] front[i] > ' ' by {
            assert(front[i] == text[i]);
        }
        lemma_all_kept(front);
        assert(text[text.len() - 1] > ' ');
        assert(front.push(text.last()) =~= text);
    }
}

/// The host of a URL in which all characters are visible.
pub(crate) proof fn lemma_host_of_url(
    scheme: Seq<char>,
    user: Seq<char>,
    host: Seq<char>,
    rest: Seq<char>,
)
    requires
        scheme == "http"@ || scheme == "https"@ || scheme == "ftp"@ || scheme == "mailto"@ || scheme
            == "data"@,
        host.len() > 0,
        user.len() > 0 ==> user.last() == '@',
        forall|i: int|
            0 <= i < user.len() ==> #[trigger] user[i] > ' ' && user[i] != '/' && user[i] != '\\'
                && user[i] != '?' && user[i] != '#',
        forall|i: int|
            0 <= i < host.len() ==> #[trigger] host[i] > ' ' && host[i] != '/' && host[i] != '\\'
                && host[i] != '?' && host[i] != '#' && host[i] != '@',
        forall|i: int| 0 <= i < rest.len() ==> #[trigger] rest[i] > ' ',
    ensures
        host_part(scheme + seq![':', '/', '/'] + user + host + seq!['/'] + rest) == if scheme
            == "mailto"@ || scheme == "data"@ {
            Seq::<char>::empty()
        } else {
            host
        },
{
    reveal_strlit("http");
    reveal_strlit("https");
    reveal_strlit("ftp");
    reveal_strlit("mailto");
    reveal_strlit("data");
    reveal_strlit("file");
    reveal_strlit("ws");
    reveal_strlit("wss");
    reveal_strlit("gopher");
    let all = user + host;
    let behind = all + seq!['/'] + rest;
    let text = scheme + seq![':', '/', '/'] + user + host + seq!['/'] + rest;
    let n = scheme.len() as int;
    assert(text =~= scheme + seq![':', '/', '/'] + behind);
    assert forall|i: int| 0 <= i < text.len() implies #[trigger] text[i] > ' ' by {
        if i < n {
            assert(text[i] == scheme[i]);
        } else if i >= n + 3 {
            let k = i - n - 3;
            assert(text[i] == behind[k]);
            if k < user.len() {
                assert(behind[k] == user[k]);
            } else if k < all.len() {
                assert(behind[k] == host[k - user.len()]);
            } else if k > all.len() {
                assert(behind[k] == rest[k - all.len() - 1]);
            }
        }
    }
    lemma_cleaned(text);
    assert forall|i: int| 0 <= i < n implies text[i] != ':' by {
        assert(text[i] == scheme[i]);
    }
    text::lemma_first_index_unique(text, ':', n);
    assert(text.take(n) =~= scheme);
    let tail = text.skip(n + 1);
    assert(tail =~= seq!['/', '/'] + behind);
    assert forall|i: int| 0 <= i < n implies small_letter(scheme[i]) == #[trigger] scheme[i] by {}
    assert(!is_name(scheme, "file"@)) by {
        if is_name(scheme, "file"@) {
            assert(small_letter(scheme[0]) == "file"@[0]);
            assert(small_letter(scheme[1]) == "file"@[1]);
        }
    }
    if scheme == "mailto"@ || scheme == "data"@ {
        assert(!has_server(scheme)) by {
            if is_name(scheme, "http"@) {
                assert(small_letter(scheme[0]) == "http"@[0]);
            }
            if is_name(scheme, "gopher"@) {
                assert(small_letter(scheme[0]) == "gopher"@[0]);
            }
        }
    } else {
        assert(is_name(scheme, scheme));
        assert(all[0] == if user.len() > 0 {
            user[0]
        } else {
            host[0]
        });
        assert(no_slash()(tail[2])) by {
            assert(tail[2] == all[0]);
        }
        text::lemma_first_where(tail, no_slash(), 2);
        assert(tail.skip(2) =~= behind);
        assert forall|i: int| 0 <= i < all.len() implies !ends_authority()(#[trigger] behind[i]) by {
            assert(behind[i] == all[i]);
            if i < user.len() {
                assert(all[i] == user[i]);
            } else {
                assert(all[i] == host[i - user.len()]);
            }
        }
        assert(behind[all.len() as int] == '/');
        text::lemma_first_where(behind, ends_authority(), all.len() as int);
        assert(behind.take(all.len() as int) =~= all);
        text::lemma_behind_last(all, '@');
        let u = text::behind_last(all, '@');
        if u > user.len() {
            assert(all[u - 1] == host[u - 1 - user.len()]);
        } else if u < user.len() {
            assert(all[user.len() - 1] == user[user.len() - 1]);
        }
        assert(all.skip(user.len() as int) =~= host);
    }
}

/// All labels of a host are looked at, each by itself: what stands before a dot, if there is
/// none in it, and what stands behind.
pub proof fn labels_are_looked_at_one_by_one(label: Seq<char>, host: Seq<char>)
    requires
        !label.contains('.'),
    ensures
        has_encodable_labels(label) <==> is_encodable(label),
        has_encodable_labels(label + seq!['.'] + host) <==> is_encodable(label)
            && has_encodable_labels(host),
{
    text::lemma_first_index(label, '.');
    assert(label.take(label.len() as int) =~= label);
    let s = label + seq!['.'] + host;
    let n = label.len() as int;
    assert forall|i: int| 0 <= i < n implies s[i] != '.' by {
        assert(s[i] == label[i]);
    }
    text::lemma_first_index_unique(s, '.', n);
    assert(s.take(n) =~= label);
    assert(s.skip(n + 1) =~= host);
}

/// Labels of thousands of characters can be encoded if these have low code points, and no
/// `%` and no `-` is among them. A label in ASCII without `%` can be, whatever its length,
/// unless it begins like one in its encoded form.
pub proof fn labels_of_low_characters_can_be_encoded(label: Seq<char>)
    ensures
        label.len() <= 8422 && (forall|i: int|
            0 <= i < label.len() ==> #[trigger] label[i] < '\u{f900}' && label[i] != '%'
                && label[i] != '-') ==> is_encodable(label),
        (forall|i: int| 0 <= i < label.len() ==> #[trigger] label[i] <= '\u{7f}' && label[i] != '%')
            && !(label.len() >= 4 && (label[0] == 'x' || label[0] == 'X') && (label[1] == 'n'
            || label[1] == 'N') && label[2] == '-' && label[3] == '-') ==> is_encodable(label),
{
    if label.len() <= 8422 && (forall|i: int|
        0 <= i < label.len() ==> #[trigger] label[i] < '\u{f900}' && label[i] != '%' && label[i]
            != '-') {
        lemma_low_label(label);
        let w = label_width(label);
        let r = label_reach(label);
        assert(w * r <= 67376 * 0xf900) by (nonlinear_arith)
            requires
                w <= 67376,
                r <= 0xf900,
        ;
    }
    reveal_strlit("xn--");
    if is_encoded(label) {
        let mark = label.take(4);
        assert(small_letter(mark[0]) == "xn--"@[0] && small_letter(mark[1]) == "xn--"@[1]
            && small_letter(mark[2]) == "xn--"@[2] && small_letter(mark[3]) == "xn--"@[3]);
        assert(mark[0] == label[0] && mark[1] == label[1] && mark[2] == label[2] && mark[3]
            == label[3]);
    }
}

/// Characters of low code points become few characters of low code points.
proof fn lemma_low_label(label: Seq<char>)
    requires
        forall|i: int|
            0 <= i < label.len() ==> #[trigger] label[i] < '\u{f900}' && label[i] != '%' && label[i]
                != '-',
    ensures
        label_width(label) <= 8 * label.len(),
        label_reach(label) <= 0xf900,
    decreases label.len(),
{
    if label.len() > 0 {
        let front = label.drop_last();
        assert forall|i: int| 0 <= i < front.len() implies #[trigger] front[i] < '\u{f900}'
            && front[i] != '%' && front[i] != '-' by {
            assert(front[i] == label[i]);
        }
        lemma_low_label(front);
        assert(label[label.len() - 1] < '\u{f900}');
    }
}

/// A label that is not plain is let through only if no sum in its encoding can overflow:
/// with a `%` or with a character of a high code point it has at most 3855 characters.
pub proof fn long_labels_are_left_out(label: Seq<char>, k: int)
    requires
        0 <= k < label.len(),
        label[k] == '%' || label[k] >= '\u{30000}',
        is_encodable(label),
    ensures
        label.len() <= 3855,
{
    lemma_label_at_least(label, k);
    let w = label_width(label);
    let r = label_reach(label);
    assert(!is_plain(label));
    if w > 3855 {
        assert(w * r > 0xffff_ffff) by (nonlinear_arith)
            requires
                w >= 3856,
                r >= 0x110000,
        ;
    }
}

/// A label becomes at least as many characters as it has, for all that is known, and may
/// reach as far as any of them.
proof fn lemma_label_at_least(label: Seq<char>, k: int)
    requires
        0 <= k < label.len(),
    ensures
        label_width(label) >= label.len(),
        label_reach(label) >= reach(label[k]),
    decreases label.len(),
{
    let front = label.drop_last();
    if label.len() > 1 {
        if k < front.len() {
            assert(front[k] == label[k]);
            lemma_label_at_least(front, k);
        } else {
            lemma_label_at_least(front, 0);
        }
    }
}

/// The small letter of a letter of ASCII; any other character itself.
fn to_small(c: char) -> (res: char)
    ensures
        res == small_letter(c),
{
    if 'A' <= c && c <= 'Z' {
        (c as u8 + 32) as char
    } else {
        c
    }
}

/// Whether `s` is `name` in capital or small letters.
fn same_name(s: &[char], name: &str) -> (res: bool)
    ensures
        res == is_name(s@, name@),
{
    let letters = to_chars(name);
    if s.len() != letters.len() {
        return false;
    }
    let mut i: usize = 0;
    while i < s.len()
        invariant
            i <= s@.len(),
            letters@ == name@,
            s@.len() == name@.len(),
            forall|j: int| 0 <= j < i ==> small_letter(s@[j]) == name@[j],
        decreases s@.len() - i,
    {
        if to_small(s[i]) != letters[i] {
            return false;
        }
        i = i + 1;
    }
    true
}

/// Whether the character ends what stands before the path, the query and the fragment.
fn is_end(c: char) -> (res: bool)
    ensures
        res == ends_authority()(c),
{
    c == '/' || c == '\\' || c == '?' || c == '#'
}

/// Whether the character separates labels.
fn is_dot(c: char) -> (res: bool)
    ensures
        res == (c == '.'),
{
    c == '.'
}

/// Whether the character is none of ASCII, or begins one that is written in hexadecimal.
fn is_special(c: char) -> (res: bool)
    ensures
        res == (c > '\u{7f}' || c == '%'),
{
    c > '\u{7f}' || c == '%'
}

/// Whether the character is neither a space nor one of the control characters before it.
fn is_visible(c: char) -> (res: bool)
    ensures
        res == visible()(c),
{
    c > ' '
}

/// Whether the character ends a scheme.
fn is_colon(c: char) -> (res: bool)
    ensures
        res == (c == ':'),
{
    c == ':'
}

/// Whether the character does not separate the parts of a path.
fn is_no_slash(c: char) -> (res: bool)
    ensures
        res == no_slash()(c),
{
    !(c == '/' || c == '\\')
}

/// The position of the first character that has the property `f`.
fn find_where<F: Fn(char) -> bool>(s: &[char], f: F) -> (res: usize)
    requires
        forall|c: char| call_requires(f, (c,)),
    ensures
        res <= s@.len(),
        forall|i: int| 0 <= i < res ==> call_ensures(f, (#[trigger] s@[i],), false),
        res < s@.len() ==> call_ensures(f, (s@[res as int],), true),
{
    let mut i: usize = 0;
    while i < s.len()
        invariant
            i <= s@.len(),
            forall|c: char| call_requires(f, (c,)),
            forall|j: int| 0 <= j < i ==> call_ensures(f, (#[trigger] s@[j],), false),
        decreases s@.len() - i,
    {
        if f(s[i]) {
            return i;
        }
        i = i + 1;
    }
    i
}

/// The characters that are not ignored.
fn kept_chars(text: &str) -> (res: Vec<char>)
    ensures
        res@ == text@.filter(|c: char| !is_ignored(c)),
{
    let chars = to_chars(text);
    let mut kept: Vec<char> = Vec::new();
    let mut i: usize = 0;
    while i < chars.len()
        invariant
            i <= chars@.len(),
            chars@ == text@,
            kept@ == text@.take(i as int).filter(|c: char| !is_ignored(c)),
        decreases chars@.len() - i,
    {
        let c = chars[i];
        proof {
            assert(text@.take(i + 1).drop_last() =~= text@.take(i as int));
            reveal(Seq::filter);
        }
        if !(c == '\t' || c == '\n' || c == '\r') {
            kept.push(c);
        }
        i = i + 1;
    }
    assert(text@.take(text@.len() as int) =~= text@);
    kept
}

/// Whether a URL with this scheme names a server.
fn names_server(scheme: &[char]) -> (res: bool)
    ensures
        res == has_server(scheme@),
{
    same_name(scheme, "http") || same_name(scheme, "https") || same_name(scheme, "ws")
        || same_name(scheme, "wss") || same_name(scheme, "ftp") || same_name(scheme, "gopher")
}

/// What stands before the path, the query and the fragment.
fn authority_of(s: &[char]) -> (res: &[char])
    ensures
        res@ == authority(s@),
{
    let n = find_where(s, is_end);
    proof {
        text::lemma_first_where(s@, ends_authority(), n as int);
    }
    slice_subrange(s, 0, n)
}

/// The host and the port of an authority, which may name a user too.
fn without_user(s: &[char]) -> (res: &[char])
    ensures
        res@ == behind_user(s@),
{
    let mut i: usize = s.len();
    assert(s@.take(i as int) =~= s@);
    while i > 0 && s[i - 1] != '@'
        invariant
            i <= s@.len(),
            text::behind_last(s@, '@') == text::behind_last(s@.take(i as int), '@'),
        decreases i,
    {
        assert(s@.take(i as int).drop_last() =~= s@.take(i - 1));
        i = i - 1;
    }
    let res = slice_subrange(s, i, s.len());
    assert(res@ =~= s@.skip(i as int));
    res
}

/// Whether all labels of a host can be encoded.
fn are_labels_encodable(host: &[char]) -> (res: bool)
    ensures
        res == has_encodable_labels(host@),
{
    let mut start: usize = 0;
    assert(host@.skip(0) =~= host@);
    loop
        invariant
            start <= host@.len(),
            has_encodable_labels(host@) == has_encodable_labels(host@.skip(start as int)),
        decreases host@.len() - start,
    {
        let rest = slice_subrange(host, start, host.len());
        assert(rest@ =~= host@.skip(start as int));
        let n = find_where(rest, is_dot);
        proof {
            text::lemma_first_index_unique(rest@, '.', n as int);
        }
        let label = slice_subrange(rest, 0, n);
        assert(label@ =~= rest@.take(n as int));
        if !is_label_encodable(label) {
            return false;
        }
        if n == rest.len() {
            return true;
        }
        assert(rest@.skip(n + 1) =~= host@.skip(start + n + 1));
        start = start + n + 1;
    }
}

/// The most characters that a character of a label becomes.
fn width_of(c: char) -> (res: u64)
    ensures
        res == width(c),
{
    if c <= '\u{7f}' && c != '%' {
        1
    } else if c == '\u{fdfa}' {
        18
    } else {
        8
    }
}

/// A code point above all those that a character of a label becomes.
fn reach_of(c: char) -> (res: u64)
    ensures
        res == reach(c),
{
    if c <= '\u{7f}' {
        if c == '%' || c == '-' {
            0x110000
        } else {
            0x80
        }
    } else if c >= '\u{30000}' {
        0x110000
    } else if c >= '\u{10000}' {
        0x30000
    } else if c >= '\u{f900}' {
        0x110000
    } else if c >= '\u{800}' {
        0xf900
    } else {
        0x3000
    }
}

/// Whether a label needs no encoding, however long it is.
fn is_label_plain(label: &[char]) -> (res: bool)
    ensures
        res == is_plain(label@),
{
    if label.len() >= 4 {
        let front = slice_subrange(label, 0, 4);
        assert(front@ =~= label@.take(4));
        if same_name(front, "xn--") {
            return false;
        }
    }
    find_where(label, is_special) == label.len()
}

/// A label becomes no fewer characters than its beginning does.
proof fn lemma_label_width(label: Seq<char>, n: int)
    requires
        0 <= n <= label.len(),
    ensures
        label_width(label.take(n)) <= label_width(label),
        label_reach(label) >= 0x80,
    decreases label.len(),
{
    if n < label.len() {
        lemma_label_width(label.drop_last(), n);
        assert(label.drop_last().take(n) =~= label.take(n));
    } else {
        assert(label.take(n) =~= label);
        if n > 0 {
            lemma_label_width(label.drop_last(), n - 1);
        }
    }
}

/// Whether encoding a label cannot overflow.
fn is_label_encodable(label: &[char]) -> (res: bool)
    ensures
        res == is_encodable(label@),
{
    if is_label_plain(label) {
        return true;
    }
    let mut n: u64 = 0;
    let mut above: u64 = 0x80;
    let mut i: usize = 0;
    while i < label.len()
        invariant
            i <= label@.len(),
            !is_plain(label@),
            n == label_width(label@.take(i as int)),
            n <= u32::MAX,
            above == label_reach(label@.take(i as int)),
            0x80 <= above <= 0x110000,
        decreases label@.len() - i,
    {
        assert(label@.take(i + 1).drop_last() =~= label@.take(i as int));
        n = n + width_of(label[i]);
        let next = reach_of(label[i]);
        if above < next {
            above = next;
        }
        i = i + 1;
        if n > 0xffff_ffff {
            proof {
                lemma_label_width(label@, i as int);
                let w = label_width(label@);
                let r = label_reach(label@);
                assert(w * r > u32::MAX) by (nonlinear_arith)
                    requires
                        w > u32::MAX,
                        r >= 0x80,
                ;
            }
            return false;
        }
    }
    assert(label@.take(i as int) =~= label@);
    assert(n * above <= 0xffff_ffff * 0x110000) by (nonlinear_arith)
        requires
            n <= 0xffff_ffff,
            above <= 0x110000,
    ;
    n * above <= 0xffff_ffff
}

/// Whether the labels of the host of a URL can be encoded.
pub fn is_host_encodable(text: &str) -> (res: bool)
    ensures
        res == has_encodable_labels(host_part(text@)),
{
    let kept = kept_chars(text);
    let all = kept.as_slice();
    let start = find_where(all, is_visible);
    let s = slice_subrange(all, start, all.len());
    proof {
        text::lemma_first_where(all@, visible(), start as int);
        assert(s@ =~= cleaned(text@));
        assert(has_encodable_labels(Seq::empty()));
    }
    let n = find_where(s, is_colon);
    proof {
        text::lemma_first_index_unique(s@, ':', n as int);
    }
    if n == s.len() {
        return true;
    }
    let scheme = slice_subrange(s, 0, n);
    let rest = slice_subrange(s, n + 1, s.len());
    assert(scheme@ =~= s@.take(n as int));
    assert(rest@ =~= s@.skip(n + 1));
    if same_name(scheme, "file") {
        if rest.len() < 2 || !(rest[0] == '/' || rest[0] == '\\') || !(rest[1] == '/' || rest[1]
            == '\\') {
            return true;
        }
        let behind = slice_subrange(rest, 2, rest.len());
        assert(behind@ =~= rest@.skip(2));
        return are_labels_encodable(authority_of(behind));
    }
    if !names_server(scheme) {
        return true;
    }
    let m = find_where(rest, is_no_slash);
    proof {
        text::lemma_first_where(rest@, no_slash(), m as int);
    }
    let behind = slice_subrange(rest, m, rest.len());
    assert(behind@ =~= rest@.skip(m as int));
    are_labels_encodable(without_user(authority_of(behind)))
}

} // verus!
