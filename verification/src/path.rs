//! File paths as text: components separated by `/`.
//!
//! Repeated separators and `.` components are skipped, as are separators at the
//! end, except that a path may begin with `/` (its root) or with `.`.
use vstd::prelude::*;
use vstd::string::*;
use crate::text;
use crate::text::{concat, to_chars};

verus! {

/// Whether the path begins at the root.
pub open spec fn spec_is_absolute(p: Seq<char>) -> bool {
    p.len() > 0 && p[0] == '/'
}

/// Where the components begin: behind the root, behind a `.` that is the first
/// component, or at the beginning.
pub open spec fn body_start(p: Seq<char>) -> int {
    if p.len() > 0 && (p[0] == '/' || (p[0] == '.' && (p.len() == 1 || p[1] == '/'))) {
        1
    } else {
        0
    }
}

/// The path without the separators and `.` components at its end.
pub open spec fn trimmed_end(p: Seq<char>) -> Seq<char>
    decreases p.len(),
{
    let n = p.len() as int;
    if n <= body_start(p) {
        p
    } else if p[n - 1] == '/' || (p[n - 1] == '.' && (n - 1 == body_start(p) || p[n - 2] == '/')) {
        trimmed_end(p.drop_last())
    } else {
        p
    }
}

/// The path without the separators and `.` components at its beginning.
pub open spec fn trimmed_start(p: Seq<char>) -> Seq<char>
    decreases p.len(),
{
    if body_start(p) == 1 {
        trimmed_start(p.skip(1))
    } else {
        p
    }
}

/// Where the component begins that ends at position `n`.
pub open spec fn component_start(p: Seq<char>, n: int) -> int
    decreases n,
{
    if n <= body_start(p) {
        body_start(p)
    } else if p[n - 1] == '/' {
        n
    } else {
        component_start(p, n - 1)
    }
}

/// The last component, unless it is `..`, or there is none behind the root or
/// the leading `.`.
pub open spec fn spec_file_name(p: Seq<char>) -> Option<Seq<char>> {
    let t = trimmed_end(p);
    let name = t.skip(component_start(t, t.len() as int));
    if t.len() <= body_start(t) || name == seq!['.', '.'] {
        None
    } else {
        Some(name)
    }
}

/// The path without its last component.
pub open spec fn parent(p: Seq<char>) -> Seq<char> {
    let t = trimmed_end(p);
    trimmed_end(t.take(component_start(t, t.len() as int)))
}

/// `child` seen from the directory `p`. An absolute `child` is taken as it is.
pub open spec fn spec_join(p: Seq<char>, child: Seq<char>) -> Seq<char> {
    if spec_is_absolute(child) {
        child
    } else if p.len() == 0 || p.last() == '/' {
        p + child
    } else {
        p + seq!['/'] + child
    }
}

/// The path with its file name replaced by `name`, which is appended where there
/// is no file name.
pub open spec fn spec_with_file_name(p: Seq<char>, name: Seq<char>) -> Seq<char> {
    if spec_file_name(p) is Some {
        spec_join(parent(p), name)
    } else {
        spec_join(p, name)
    }
}

/// The path as seen from the root that it may begin with.
pub open spec fn spec_as_relative(p: Seq<char>) -> Seq<char> {
    if spec_is_absolute(p) {
        trimmed_end(trimmed_start(p.skip(1)))
    } else {
        trimmed_end(p)
    }
}

/// A part of a path.
pub enum Component {
    /// The root, which an absolute path begins with.
    Root,
    /// A `.` that a path begins with.
    Current,
    /// A name, or `..`.
    Name(Seq<char>),
}

/// The names between separators. Empty ones and `.` do not count.
pub open spec fn names(s: Seq<char>) -> Seq<Component>
    decreases s.len(),
{
    let n = text::first_index(s, '/');
    let name = s.take(n);
    let first = if name.len() == 0 || name == seq!['.'] {
        seq![]
    } else {
        seq![Component::Name(name)]
    };
    if 0 <= n < s.len() {
        first + names(s.skip(n + 1))
    } else {
        first
    }
}

/// The parts of a path, in order.
pub open spec fn components(p: Seq<char>) -> Seq<Component> {
    if spec_is_absolute(p) {
        seq![Component::Root] + names(p.skip(1))
    } else if body_start(p) == 1 {
        seq![Component::Current] + names(p.skip(1))
    } else {
        names(p)
    }
}

/// Trimming keeps a beginning of the path, and the place where its components begin.
pub proof fn lemma_trimmed_end(p: Seq<char>)
    ensures
        trimmed_end(p).len() <= p.len(),
        trimmed_end(p) == p.take(trimmed_end(p).len() as int),
        body_start(trimmed_end(p)) == body_start(p),
        body_start(p) <= p.len() ==> body_start(p) <= trimmed_end(p).len(),
        trimmed_end(trimmed_end(p)) == trimmed_end(p),
    decreases p.len(),
{
    let n = p.len() as int;
    if n > body_start(p) && trimmed_end(p) != p {
        let q = p.drop_last();
        assert(body_start(q) == body_start(p));
        lemma_trimmed_end(q);
        let m = trimmed_end(p).len() as int;
        assert(q.take(m) == p.take(m));
    } else {
        assert(p.take(n) == p);
    }
}

/// A component begins behind the root and ends where it should.
pub proof fn lemma_component_start(p: Seq<char>, n: int)
    requires
        body_start(p) <= n <= p.len(),
    ensures
        body_start(p) <= component_start(p, n) <= n,
        forall|i: int| component_start(p, n) <= i < n ==> p[i] != '/',
        component_start(p, n) == body_start(p) || p[component_start(p, n) - 1] == '/',
    decreases n,
{
    if n > body_start(p) && p[n - 1] != '/' {
        lemma_component_start(p, n - 1);
    }
}

/// Whether `name` can be the name of a file: one component, neither `.` nor `..`.
pub open spec fn is_plain_name(name: Seq<char>) -> bool {
    &&& name.len() > 0
    &&& !name.contains('/')
    &&& name != seq!['.']
    &&& name != seq!['.', '.']
}

/// A path that was made relative is relative.
pub proof fn as_relative_is_relative(p: Seq<char>)
    ensures
        !spec_is_absolute(spec_as_relative(p)),
{
    let q = if spec_is_absolute(p) {
        lemma_trimmed_start(p.skip(1));
        trimmed_start(p.skip(1))
    } else {
        p
    };
    assert(!spec_is_absolute(q));
    lemma_trimmed_end(q);
    if trimmed_end(q).len() > 0 {
        assert(trimmed_end(q)[0] == q[0]);
    }
}

/// The names on both sides of a separator are those of the two sides.
proof fn lemma_names_concat(a: Seq<char>, b: Seq<char>)
    ensures
        names(a + seq!['/'] + b) == names(a) + names(b),
    decreases a.len(),
{
    let s = a + seq!['/'] + b;
    text::lemma_first_index(a, '/');
    let n = text::first_index(a, '/');
    assert forall|i: int| 0 <= i < n implies s[i] != '/' by {
        assert(s[i] == a[i]);
    }
    if n < a.len() {
        assert(s[n] == a[n]);
        text::lemma_first_index_unique(s, '/', n);
        let rest = a.skip(n + 1);
        lemma_names_concat(rest, b);
        assert(s.take(n) =~= a.take(n));
        assert(s.skip(n + 1) =~= rest + seq!['/'] + b);
        assert(names(s) =~= names(a) + names(b));
    } else {
        text::lemma_first_index_unique(s, '/', n);
        assert(s.take(n) =~= a);
        assert(a.take(n) =~= a);
        assert(s.skip(n + 1) =~= b);
    }
}

/// A text without separators is a name, unless it is empty or `.`.
proof fn lemma_one_name(s: Seq<char>)
    requires
        !s.contains('/'),
    ensures
        names(s) == if s.len() == 0 || s == seq!['.'] {
            Seq::<Component>::empty()
        } else {
            seq![Component::Name(s)]
        },
{
    text::lemma_first_index(s, '/');
    assert(s.take(s.len() as int) =~= s);
}

/// The names are what stands between separators, in order, without what is empty or `.`:
/// the names on both sides of a separator are those of the two sides, and a text without
/// separators is the only name in it.
pub proof fn names_stand_between_separators(a: Seq<char>, b: Seq<char>, name: Seq<char>)
    requires
        !name.contains('/'),
    ensures
        names(a + seq!['/'] + b) == names(a) + names(b),
        name.len() > 0 && name != seq!['.'] ==> names(name) == seq![Component::Name(name)],
        name.len() == 0 || name == seq!['.'] ==> names(name).len() == 0,
{
    lemma_names_concat(a, b);
    lemma_one_name(name);
}

/// The parts of a path are its names, behind the root if it begins with a separator, and
/// behind `.` if that is what stands before the first separator.
pub proof fn components_are_names_behind_root(p: Seq<char>)
    ensures
        p.len() > 0 && p[0] == '/' ==> components(p) == seq![Component::Root] + names(p.skip(1)),
        p == seq!['.'] || (p.len() > 1 && p[0] == '.' && p[1] == '/') ==> components(p) == seq![
            Component::Current,
        ] + names(p),
        !(p.len() > 0 && p[0] == '/') && !(p == seq!['.'] || (p.len() > 1 && p[0] == '.' && p[1]
            == '/')) ==> components(p) == names(p),
{
    if p.len() == 1 && p[0] == '.' {
        assert(p =~= seq!['.']);
    }
    if p.len() > 0 && p[0] == '.' && body_start(p) == 1 {
        lemma_names_behind_dot(p);
    }
}

/// A separator or a `.` that a path begins with is none of the names.
proof fn lemma_names_behind_dot(s: Seq<char>)
    requires
        body_start(s) == 1,
    ensures
        names(s) == names(s.skip(1)),
{
    let q = s.skip(1);
    if s[0] == '/' {
        assert(s.take(0).len() == 0);
        assert(names(s) =~= names(q));
    } else if s.len() == 1 {
        text::lemma_first_index_unique(s, '/', 1);
        assert(s.take(1) =~= seq!['.']);
        assert(q.take(text::first_index(q, '/')).len() == 0);
    } else {
        text::lemma_first_index_unique(s, '/', 1);
        text::lemma_first_index_unique(q, '/', 0);
        assert(s.take(1) =~= seq!['.']);
        assert(q.take(0).len() == 0);
        assert(s.skip(2) =~= q.skip(1));
        assert(names(s) =~= names(q));
    }
}

/// Joining a relative path to a directory puts the parts of the two one behind the other.
/// A `.` that the relative path begins with is no part any more, unless the directory is
/// the empty path.
pub proof fn join_puts_components_together(p: Seq<char>, child: Seq<char>)
    requires
        !(child.len() > 0 && child[0] == '/'),
    ensures
        p.len() == 0 ==> spec_join(p, child) == child,
        p.len() > 0 ==> components(spec_join(p, child)) == components(p) + names(child),
        components(child) == names(child) || components(child) == seq![Component::Current] + names(
            child,
        ),
{
    let r = spec_join(p, child);
    components_are_names_behind_root(child);
    if p.len() == 0 {
        assert(r =~= child);
    } else {
        let b = body_start(p);
        let whole = if p.last() == '/' {
            p.drop_last()
        } else {
            p
        };
        assert(r =~= whole + seq!['/'] + child);
        assert(r[0] == p[0]);
        assert(body_start(r) == b);
        if p.last() == '/' {
            assert(p =~= whole + seq!['/'] + Seq::<char>::empty());
        }
        assert(names(Seq::<char>::empty()) =~= Seq::<Component>::empty()) by {
            lemma_one_name(Seq::empty());
        }
        if b <= whole.len() {
            let front = whole.skip(b);
            lemma_names_concat(front, child);
            lemma_names_concat(front, Seq::empty());
            assert(r.skip(b) =~= front + seq!['/'] + child);
            if p.last() == '/' {
                assert(p.skip(b) =~= front + seq!['/'] + Seq::<char>::empty());
                assert(names(p.skip(b)) =~= names(front));
            } else {
                assert(p.skip(b) =~= front);
            }
        } else {
            assert(r.skip(1) =~= child);
            assert(p.skip(1) =~= Seq::<char>::empty());
        }
        assert(r.skip(0) =~= r);
        assert(p.skip(0) =~= p);
        assert(components(r) =~= components(p) + names(child));
    }
}

/// Joining a relative path to a directory keeps both texts, with one separator between
/// them where the directory neither is empty nor ends with one. An absolute path is kept
/// as it is.
pub proof fn join_keeps_both_texts(p: Seq<char>, child: Seq<char>)
    ensures
        child.len() > 0 && child[0] == '/' ==> spec_join(p, child) == child,
        !(child.len() > 0 && child[0] == '/') ==> {
            let r = spec_join(p, child);
            &&& p.is_prefix_of(r)
            &&& child.is_suffix_of(r)
            &&& p.len() == 0 || p.last() == '/' ==> r.len() == p.len() + child.len()
            &&& p.len() > 0 && p.last() != '/' ==> r.len() == p.len() + 1 + child.len()
                && r[p.len() as int] == '/'
        },
{
    let r = spec_join(p, child);
    if !(child.len() > 0 && child[0] == '/') {
        assert(r.take(p.len() as int) =~= p);
        assert(p =~= r.subrange(0, p.len() as int));
        assert(child =~= r.subrange(r.len() - child.len(), r.len() as int));
    }
}

/// No separator and no `.` component is left at the end of a path that was trimmed.
proof fn lemma_trimmed_end_is_tight(p: Seq<char>)
    ensures
        ({
            let t = trimmed_end(p);
            t.len() > 1 ==> t.last() != '/' && !(t.last() == '.' && t[t.len() - 2] == '/')
        }),
    decreases p.len(),
{
    let n = p.len() as int;
    if n > body_start(p) && (p[n - 1] == '/' || (p[n - 1] == '.' && (n - 1 == body_start(p)
        || p[n - 2] == '/'))) {
        lemma_trimmed_end_is_tight(p.drop_last());
    }
}

/// The file name is the last part of a path, unless that is `..` or no name. The rest is
/// the parent: its parts are the others, and it is the beginning of the path up to there,
/// without separators at its end.
pub proof fn file_name_is_last_component(p: Seq<char>)
    ensures
        spec_file_name(p) is Some <==> {
            &&& components(p).len() > 0
            &&& components(p).last() is Name
            &&& components(p).last()->Name_0 != seq!['.', '.']
        },
        spec_file_name(p) is Some ==> {
            &&& components(p) == components(parent(p)).push(
                Component::Name(spec_file_name(p)->0),
            )
            &&& parent(p).is_prefix_of(p)
            &&& parent(p).len() > 1 ==> parent(p).last() != '/' && !(parent(p).last() == '.'
                && parent(p)[parent(p).len() - 2] == '/')
        },
{
    let t = trimmed_end(p);
    let n = t.len() as int;
    lemma_components_trimmed_end(p);
    lemma_trimmed_end(p);
    lemma_trimmed_end_is_tight(p);
    let b = body_start(t);
    if n <= b {
        assert(t.skip(b).len() == 0 || b > n);
        lemma_one_name(Seq::empty());
        if b == 1 {
            assert(t.skip(1) =~= Seq::<char>::empty());
        } else {
            assert(t =~= Seq::<char>::empty());
        }
        assert(names(Seq::<char>::empty()).len() == 0);
    } else {
        lemma_component_start(t, n);
        let c = component_start(t, n);
        let name = t.skip(c);
        let front = t.take(c);
        assert(trimmed_end(t) == t);
        assert(t[n - 1] != '/') by {
            if t[n - 1] == '/' {
                lemma_trimmed_end(t.drop_last());
            }
        }
        assert(c < n) by {
            if c == n {
                assert(t[c - 1] == '/');
            }
        }
        assert(!name.contains('/')) by {
            assert forall|i: int| 0 <= i < name.len() implies name[i] != '/' by {
                assert(name[i] == t[c + i]);
            }
        }
        assert(name != seq!['.']) by {
            if name == seq!['.'] {
                assert(name.len() == 1 && name[0] == '.');
                assert(t[n - 1] == '.');
                assert(c == n - 1);
                lemma_trimmed_end(t.drop_last());
            }
        }
        lemma_one_name(name);
        let body = t.skip(b);
        if c == b {
            assert(body =~= name);
            assert(front.len() == b);
            if b == 1 {
                assert(front[0] == t[0]);
                assert(front.skip(1) =~= Seq::<char>::empty());
                lemma_one_name(Seq::empty());
                if t[0] == '.' {
                    assert(t[1] == '/');
                    assert(name[0] == t[1]);
                    assert(name.contains(name[0]));
                }
                assert(components(front) =~= seq![Component::Root]);
            } else {
                assert(front =~= Seq::<char>::empty());
                lemma_one_name(Seq::empty());
                assert(t.skip(0) =~= t);
            }
        } else {
            let inner = t.subrange(b, c - 1);
            assert(body =~= inner + seq!['/'] + name);
            lemma_names_concat(inner, name);
            lemma_names_concat(inner, Seq::empty());
            lemma_one_name(Seq::empty());
            assert(front.skip(b) =~= inner + seq!['/'] + Seq::<char>::empty());
            assert(names(front.skip(b)) =~= names(inner));
            assert(front[0] == t[0]);
            if c >= 2 {
                assert(front[1] == t[1]);
            }
            assert(body_start(front) == b);
            assert(t.skip(0) =~= t);
            assert(front.skip(0) =~= front);
        }
        assert(components(t) =~= components(front).push(Component::Name(name)));
        lemma_components_trimmed_end(front);
        lemma_trimmed_end(front);
        lemma_trimmed_end_is_tight(front);
        let dir = trimmed_end(front);
        assert(dir =~= p.take(dir.len() as int));
        assert(dir =~= p.subrange(0, dir.len() as int));
    }
}

/// A file name is replaced in the directory that it is in, the parent of the path. Where there
/// is none, the path is itself the directory.
pub proof fn file_name_is_replaced_in_its_directory(p: Seq<char>, name: Seq<char>)
    ensures
        spec_file_name(p) is Some ==> spec_with_file_name(p, name) == spec_join(parent(p), name),
        spec_file_name(p) is None ==> spec_with_file_name(p, name) == spec_join(p, name),
        spec_is_absolute(p) <==> p.len() > 0 && p[0] == '/',
{
}

/// A path that was made relative is a piece of the path: of an absolute path it is cut
/// out between the first and the last name, of another one it is the beginning up to
/// the last part.
pub proof fn as_relative_is_a_piece(p: Seq<char>)
    ensures
        ({
            let r = spec_as_relative(p);
            &&& p.len() > 0 && p[0] == '/' ==> exists|k: int|
                0 < k && k + r.len() <= p.len() && r == #[trigger] p.subrange(k, k + r.len())
            &&& !(p.len() > 0 && p[0] == '/') ==> r.is_prefix_of(p)
            &&& p.len() > 0 && p[0] == '/' && r.len() > 0 ==> r[0] != '/' && !(r[0] == '.' && (
            r.len() == 1 || r[1] == '/'))
            &&& r.len() > 1 ==> r.last() != '/' && !(r.last() == '.' && r[r.len() - 2] == '/')
        }),
{
    let r = spec_as_relative(p);
    if spec_is_absolute(p) {
        let q = p.skip(1);
        let t = trimmed_start(q);
        lemma_trimmed_start(q);
        lemma_trimmed_start_is_end(q);
        lemma_trimmed_end(t);
        lemma_trimmed_end_is_tight(t);
        let k = p.len() - t.len();
        assert(r =~= p.subrange(k, k + r.len()));
        assert(body_start(r) == 0);
    } else {
        lemma_trimmed_end(p);
        lemma_trimmed_end_is_tight(p);
        assert(r =~= p.subrange(0, r.len() as int));
    }
}

/// Trimming the beginning keeps an end of the path.
proof fn lemma_trimmed_start_is_end(p: Seq<char>)
    ensures
        trimmed_start(p).len() <= p.len(),
        trimmed_start(p) == p.skip(p.len() - trimmed_start(p).len()),
    decreases p.len(),
{
    if body_start(p) == 1 {
        lemma_trimmed_start_is_end(p.skip(1));
        assert(p.skip(1).skip(p.len() - 1 - trimmed_start(p).len()) =~= p.skip(
            p.len() - trimmed_start(p).len(),
        ));
    } else {
        assert(p.skip(0) =~= p);
    }
}

/// A separator or a `.` component at the end is none of the names.
proof fn lemma_names_drop_last(s: Seq<char>)
    requires
        s.len() > 0,
        s.last() == '/' || (s.last() == '.' && (s.len() == 1 || s[s.len() - 2] == '/')),
    ensures
        names(s.drop_last()) == names(s),
    decreases s.len(),
{
    text::lemma_first_index(s, '/');
    let n = text::first_index(s, '/');
    let q = s.drop_last();
    if n == s.len() {
        assert(s.len() == 1) by {
            if s.len() > 1 {
                assert(s[s.len() - 2] != '/');
            }
        }
        assert(s.take(1) =~= seq!['.']);
        assert(q.len() == 0);
        assert(q.take(text::first_index(q, '/')).len() == 0);
    } else if n == s.len() - 1 {
        text::lemma_first_index_unique(q, '/', n);
        assert(q.take(n) =~= s.take(n));
        let rest = s.skip(n + 1);
        assert(rest.len() == 0);
        assert(rest.take(text::first_index(rest, '/')).len() == 0);
        assert(names(rest) =~= seq![]);
    } else {
        text::lemma_first_index_unique(q, '/', n);
        assert(q.take(n) =~= s.take(n));
        let rest = s.skip(n + 1);
        lemma_names_drop_last(rest);
        assert(q.skip(n + 1) =~= rest.drop_last());
    }
}

/// Separators and `.` components at the end are none of the parts of a path.
proof fn lemma_components_trimmed_end(p: Seq<char>)
    ensures
        components(trimmed_end(p)) == components(p),
    decreases p.len(),
{
    let n = p.len() as int;
    if n > body_start(p) && trimmed_end(p) != p {
        let q = p.drop_last();
        lemma_components_trimmed_end(q);
        assert(body_start(q) == body_start(p));
        if body_start(p) == 1 {
            lemma_names_drop_last(p.skip(1));
            assert(q.skip(1) =~= p.skip(1).drop_last());
        } else {
            lemma_names_drop_last(p);
        }
    }
}

/// Separators and `.` components at the beginning are none of the names.
proof fn lemma_names_trimmed_start(s: Seq<char>)
    ensures
        names(trimmed_start(s)) == names(s),
    decreases s.len(),
{
    if body_start(s) == 1 {
        lemma_names_trimmed_start(s.skip(1));
        lemma_names_behind_dot(s);
    }
}

/// Making a path relative takes the root away and nothing else: the parts are those of
/// the path without the root, in order. Doing it again changes nothing.
pub proof fn as_relative_keeps_components(p: Seq<char>)
    ensures
        components(spec_as_relative(p)) == if spec_is_absolute(p) {
            components(p).skip(1)
        } else {
            components(p)
        },
        spec_is_absolute(p) <==> components(p).len() > 0 && components(p)[0] is Root,
        spec_as_relative(spec_as_relative(p)) == spec_as_relative(p),
{
    as_relative_is_relative(p);
    if spec_is_absolute(p) {
        let q = trimmed_start(p.skip(1));
        lemma_trimmed_start(p.skip(1));
        lemma_names_trimmed_start(p.skip(1));
        lemma_components_trimmed_end(q);
        lemma_trimmed_end(q);
        assert(components(p).skip(1) =~= names(p.skip(1)));
    } else {
        lemma_components_trimmed_end(p);
        lemma_trimmed_end(p);
        names_are_names(p);
    }
}

/// None of the names is the root or a leading `.`.
pub proof fn names_are_names(s: Seq<char>)
    ensures
        forall|i: int| 0 <= i < names(s).len() ==> #[trigger] names(s)[i] is Name,
    decreases s.len(),
{
    text::lemma_first_index(s, '/');
    let n = text::first_index(s, '/');
    if n < s.len() {
        names_are_names(s.skip(n + 1));
    }
}

/// What is left after trimming begins with neither a separator nor a `.` component.
proof fn lemma_trimmed_start(p: Seq<char>)
    ensures
        body_start(trimmed_start(p)) == 0,
    decreases p.len(),
{
    if body_start(p) == 1 {
        lemma_trimmed_start(p.skip(1));
    }
}

/// A path seen from the directory `root`, having been made relative, lies below
/// `root`: it begins with `root`.
pub proof fn relative_stays_below(root: Seq<char>, p: Seq<char>)
    ensures
        root.is_prefix_of(spec_join(root, spec_as_relative(p))),
{
    as_relative_is_relative(p);
    let r = spec_join(root, spec_as_relative(p));
    assert(r.take(root.len() as int) =~= root);
    assert(root =~= r.subrange(0, root.len() as int));
}

/// A plain name at the end of a directory is the file name of the path, and the
/// rest is the directory.
pub proof fn join_names_file(dir: Seq<char>, name: Seq<char>)
    requires
        is_plain_name(name),
    ensures
        spec_file_name(spec_join(dir, name)) == Some(name),
        parent(spec_join(dir, name)) == trimmed_end(dir),
{
    assert(!spec_is_absolute(name)) by {
        if spec_is_absolute(name) {
            assert(name.contains(name[0]));
        }
    }
    assert forall|i: int| 0 <= i < name.len() implies name[i] != '/' by {
        assert(name.contains(name[i]));
    }
    if name.len() == 1 {
        assert(name[0] != '.') by {
            if name[0] == '.' {
                assert(name =~= seq!['.']);
            }
        }
    }
    let r = spec_join(dir, name);
    let n = r.len() as int;
    let k = n - name.len();
    assert forall|i: int| 0 <= i < name.len() implies r[k + i] == name[i] by {}
    assert(trimmed_end(r) == r);
    lemma_component_start(r, n);
    let c = component_start(r, n);
    if k > 0 {
        assert(r[k - 1] == '/');
        assert(c >= k);
        if c > k {
            assert(r[c - 1] == name[c - 1 - k]);
        }
    } else {
        if c > 0 {
            assert(r[c - 1] == name[c - 1]);
        }
    }
    assert(c == k);
    assert(r.skip(k) =~= name);
    if dir.len() == 0 || dir.last() == '/' {
        assert(r.take(k) =~= dir);
    } else {
        assert(r.take(k) =~= dir.push('/'));
        assert(dir.push('/').drop_last() =~= dir);
    }
}

/// Replacing the file name by a plain name gives the path that file name, in the
/// directory that it was in.
pub proof fn with_file_name_sets_file_name(p: Seq<char>, name: Seq<char>)
    requires
        is_plain_name(name),
    ensures
        spec_file_name(spec_with_file_name(p, name)) == Some(name),
        spec_file_name(p) is Some ==> parent(spec_with_file_name(p, name)) == parent(p),
{
    let t = trimmed_end(p);
    lemma_trimmed_end(t.take(component_start(t, t.len() as int)));
    if spec_file_name(p) is Some {
        join_names_file(parent(p), name);
    } else {
        join_names_file(p, name);
    }
}

/// Whether the path begins at the root.
pub fn is_absolute(p: &str) -> (res: bool)
    ensures
        res == spec_is_absolute(p@),
        res <==> p@.len() > 0 && p@[0] == '/',
{
    !p.is_empty() && p.get_char(0) == '/'
}

/// Where the components of the path that begins `chars` begin.
fn find_body_start(chars: &Vec<char>, n: usize) -> (res: usize)
    requires
        n <= chars@.len(),
    ensures
        res == body_start(chars@.take(n as int)),
{
    if n > 0 && (chars[0] == '/' || (chars[0] == '.' && (n == 1 || chars[1] == '/'))) {
        1
    } else {
        0
    }
}

/// The path without the separators and `.` components at its end.
fn trim_end(p: &str) -> (res: &str)
    ensures
        res@ == trimmed_end(p@),
{
    let chars = to_chars(p);
    let mut n: usize = chars.len();
    let start = find_body_start(&chars, n);
    assert(p@.take(n as int) == p@);
    while n > start && (chars[n - 1] == '/' || (chars[n - 1] == '.' && (n - 1 == start
        || chars[n - 2] == '/')))
        invariant
            chars@ == p@,
            n <= p@.len(),
            start == body_start(p@.take(n as int)),
            trimmed_end(p@.take(n as int)) == trimmed_end(p@),
        decreases n,
    {
        assert(p@.take(n as int).drop_last() == p@.take(n - 1));
        n = n - 1;
    }
    p.substring_char(0, n)
}

/// The path without the separators and `.` components at its beginning.
fn trim_start(p: &str) -> (res: &str)
    ensures
        res@ == trimmed_start(p@),
{
    let chars = to_chars(p);
    let n = chars.len();
    let mut i: usize = 0;
    assert(p@.skip(0) == p@);
    while i < n && (chars[i] == '/' || (chars[i] == '.' && (i + 1 == n || chars[i + 1] == '/')))
        invariant
            chars@ == p@,
            n == chars@.len(),
            i <= n,
            trimmed_start(p@.skip(i as int)) == trimmed_start(p@),
        decreases n - i,
    {
        let ghost q = p@.skip(i as int);
        assert(body_start(q) == 1);
        assert(q.skip(1) == p@.skip(i + 1));
        i = i + 1;
    }
    assert(body_start(p@.skip(i as int)) == 0);
    p.substring_char(i, n)
}

/// The path as seen from the root that it may begin with: without the root, and
/// without separators and `.` components at either end.
pub fn as_relative(p: &str) -> (res: &str)
    ensures
        res@ == spec_as_relative(p@),
{
    if is_absolute(p) {
        let n = p.unicode_len();
        trim_end(trim_start(p.substring_char(1, n)))
    } else {
        trim_end(p)
    }
}

/// Where the last component of `chars` begins.
fn find_component_start(p: &str) -> (res: usize)
    requires
        body_start(p@) <= p@.len(),
    ensures
        res == component_start(p@, p@.len() as int),
{
    let chars = to_chars(p);
    let mut n: usize = chars.len();
    assert(p@.take(n as int) == p@);
    let start = find_body_start(&chars, n);
    while n > start && chars[n - 1] != '/'
        invariant
            chars@ == p@,
            start == body_start(p@),
            start <= n <= p@.len(),
            component_start(p@, n as int) == component_start(p@, p@.len() as int),
        decreases n,
    {
        n = n - 1;
    }
    n
}

/// The last component, unless it is `..`, or there is none behind the root or
/// the leading `.`.
pub fn file_name(p: &str) -> (res: Option<&str>)
    ensures
        match res {
            Some(name) => spec_file_name(p@) == Some(name@),
            None => spec_file_name(p@) is None,
        },
{
    let t = trim_end(p);
    proof {
        lemma_trimmed_end(p@);
        lemma_component_start(t@, t@.len() as int);
    }
    let chars = to_chars(t);
    let n = chars.len();
    assert(t@.take(n as int) == t@);
    if n <= find_body_start(&chars, n) {
        return None;
    }
    let i = find_component_start(t);
    if n - i == 2 && chars[i] == '.' && chars[i + 1] == '.' {
        assert(t@.skip(i as int) == seq!['.', '.']);
        None
    } else {
        let ghost name = t@.skip(i as int);
        assert(name == t@.subrange(i as int, n as int));
        assert(name != seq!['.', '.']) by {
            if name == seq!['.', '.'] {
                assert(seq!['.', '.'].len() == 2);
                assert(name[0] == chars@[i as int]);
                assert(name[1] == chars@[i + 1]);
            }
        }
        Some(t.substring_char(i, n))
    }
}

/// `child` seen from the directory `p`. An absolute `child` is taken as it is.
pub fn join(p: &str, child: &str) -> (res: String)
    ensures
        res@ == spec_join(p@, child@),
{
    if is_absolute(child) {
        return child.to_owned();
    }
    let n = p.unicode_len();
    if n == 0 || p.get_char(n - 1) == '/' {
        concat(p, child)
    } else {
        let dir = concat(p, "/");
        proof {
            reveal_strlit("/");
            assert("/"@ =~= seq!['/']);
        }
        concat(&dir, child)
    }
}

/// The path with its file name replaced by `name`, which is appended where there
/// is no file name.
pub fn with_file_name(p: &str, name: &str) -> (res: String)
    ensures
        res@ == spec_with_file_name(p@, name@),
{
    if file_name(p).is_some() {
        let t = trim_end(p);
        proof {
            lemma_trimmed_end(p@);
            lemma_component_start(t@, t@.len() as int);
        }
        let i = find_component_start(t);
        let dir = trim_end(t.substring_char(0, i));
        join(dir, name)
    } else {
        join(p, name)
    }
}

} // verus!
