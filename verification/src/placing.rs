//! How paths are put together and taken apart.
use vstd::prelude::*;

use crate::disk::local_file;
use crate::path::{
    extension, file_name, is_under, join, last_dot, lemma_stretch_end, names, parent, parts, parts_from,
    says_nothing, stretch_end, strip_prefix,
};
use crate::text::{replace_char, Text};

verus! {

/// One path behind another, with a slash between them.
pub open spec fn slashed(a: Text, b: Text) -> Text {
    a + seq!['/'] + b
}

/// Whether a path neither starts nor ends with a slash or with a `.` that says
/// nothing.
pub open spec fn is_proper(s: Text) -> bool {
    &&& s.len() > 0
    &&& s[0] != '/'
    &&& s.last() != '/'
    &&& s[0] == '.' ==> s.len() > 1 && s[1] != '/'
    &&& s.last() == '.' ==> s.len() > 1 && s[s.len() - 2] != '/'
}

/// Whether a path does not end with a slash or with a `.` that says nothing.
pub open spec fn ends_well(s: Text) -> bool {
    &&& s.len() > 0
    &&& s.last() != '/'
    &&& s.last() == '.' && s.len() > 1 ==> s[s.len() - 2] != '/'
}

/// Whether a text can be one part of a path.
pub open spec fn is_name(s: Text) -> bool {
    &&& s.len() > 0
    &&& s != seq!['.']
    &&& forall|i: int| 0 <= i < s.len() ==> #[trigger] s[i] != '/'
}

/// Places further on.
spec fn shifted(list: Seq<(int, int)>, by: int) -> Seq<(int, int)> {
    list.map_values(|p: (int, int)| (p.0 + by, p.1 + by))
}

proof fn lemma_stretch_front(a: Text, b: Text, i: int)
    requires
        0 <= i <= a.len(),
    ensures
        stretch_end(slashed(a, b), i) == stretch_end(a, i),
    decreases a.len() - i,
{
    let s = slashed(a, b);
    if i < a.len() {
        assert(s[i] == a[i]);
        if a[i] != '/' {
            lemma_stretch_front(a, b, i + 1);
        }
    } else {
        assert(s[i] == '/');
    }
}

proof fn lemma_stretch_back(a: Text, b: Text, i: int)
    requires
        0 <= i <= b.len(),
    ensures
        stretch_end(slashed(a, b), a.len() + 1 + i) == a.len() + 1 + stretch_end(b, i),
    decreases b.len() - i,
{
    let s = slashed(a, b);
    if i < b.len() {
        assert(s[a.len() + 1 + i] == b[i]);
        if b[i] != '/' {
            lemma_stretch_back(a, b, i + 1);
        }
    }
}

proof fn lemma_parts_back(a: Text, b: Text, i: int)
    requires
        0 <= i,
    ensures
        parts_from(slashed(a, b), a.len() + 1 + i) == shifted(parts_from(b, i), 1 + a.len() as int),
    decreases b.len() + 1 - i,
{
    let s = slashed(a, b);
    let n = (a.len() + 1) as int;
    if i < b.len() {
        lemma_stretch_back(a, b, i);
        lemma_stretch_end(b, i);
        lemma_stretch_end(s, n + i);
        let j = stretch_end(b, i);
        lemma_parts_back(a, b, j + 1);
        assert(s[n + i] == b[i]);
        assert(says_nothing(s, n + i, n + j) == says_nothing(b, i, j));
        assert(parts_from(s, n + i) =~= shifted(parts_from(b, i), n));
    } else {
        assert(parts_from(s, n + i) =~= shifted(parts_from(b, i), n));
    }
}

proof fn lemma_parts_front(a: Text, b: Text, i: int)
    requires
        0 <= i <= a.len(),
    ensures
        parts_from(slashed(a, b), i) == parts_from(a, i) + shifted(parts_from(b, 0), 1 + a.len() as int),
    decreases a.len() - i,
{
    let s = slashed(a, b);
    let n = (a.len() + 1) as int;
    let back = shifted(parts_from(b, 0), n);
    lemma_stretch_front(a, b, i);
    lemma_parts_back(a, b, 0);
    lemma_stretch_end(s, i);
    let j = stretch_end(s, i);
    if i == a.len() {
        assert(s[i] == '/');
        assert(parts_from(a, i) + back =~= back);
        assert(parts_from(s, i) == parts_from(s, i + 1));
    } else {
        lemma_stretch_end(a, i);
        assert(s[i] == a[i]);
        assert(says_nothing(s, i, j) == says_nothing(a, i, j));
        if j == a.len() {
            assert(parts_from(a, j + 1) =~= Seq::<(int, int)>::empty());
            assert(parts_from(s, j + 1) == back);
        } else {
            lemma_parts_front(a, b, j + 1);
        }
        assert(parts_from(s, i) =~= parts_from(a, i) + back);
    }
}

/// The places of the parts of two paths with a slash between them.
proof fn lemma_parts_of_both(a: Text, b: Text)
    requires
        a.len() > 0,
    ensures
        parts(slashed(a, b)) == parts(a) + shifted(parts_from(b, 0), 1 + a.len() as int),
{
    let s = slashed(a, b);
    let back = shifted(parts_from(b, 0), 1 + a.len() as int);
    assert(s[0] == a[0]);
    assert(s[1] == if a.len() > 1 { a[1] } else { '/' });
    if s[0] == '/' || (s[0] == '.' && s[1] == '/') {
        lemma_parts_front(a, b, 1);
        assert(parts(s) =~= parts(a) + back);
    } else {
        lemma_parts_front(a, b, 0);
    }
}

proof fn lemma_last_part(s: Text, i: int)
    requires
        ends_well(s),
        0 <= i < s.len(),
        i == 0 || s[i - 1] == '/',
        i > 0 || s != seq!['.'],
    ensures
        parts_from(s, i).len() > 0,
        parts_from(s, i).last().1 == s.len(),
    decreases s.len() - i,
{
    lemma_stretch_end(s, i);
    let j = stretch_end(s, i);
    if j == s.len() {
        assert(i < j);
        if j == i + 1 && s[i] == '.' {
            if i == 0 {
                assert(s =~= seq!['.']);
            }
        }
        assert(parts_from(s, j + 1) =~= Seq::<(int, int)>::empty());
    } else {
        assert(s[j] == '/');
        assert(j + 1 < s.len()) by {
            if j + 1 == s.len() {
                assert(s.last() == '/');
            }
        }
        lemma_last_part(s, j + 1);
    }
}

proof fn lemma_proper(s: Text)
    requires
        is_proper(s),
    ensures
        parts_from(s, 0).len() > 0,
        parts_from(s, 0)[0].0 == 0,
        parts_from(s, 0).last().1 == s.len(),
{
    lemma_stretch_end(s, 0);
    let j = stretch_end(s, 0);
    assert(j > 0);
    if j == 1 && s[0] == '.' {
        assert(s[1] == '/');
    }
    assert(s != seq!['.']) by {
        if s == seq!['.'] {
            assert(s.len() == 1);
        }
    }
    lemma_last_part(s, 0);
}

/// The parts of a path that another follows come first among the parts of both.
pub proof fn what_follows_lies_under(a: Text, b: Text)
    requires
        a.len() > 0,
    ensures
        is_under(slashed(a, b), a),
{
    let s = slashed(a, b);
    lemma_parts_of_both(a, b);
    crate::path::lemma_parts(a);
    let k = parts(a).len() as int;
    assert(names(a) =~= names(s).subrange(0, k)) by {
        assert forall|i: int| 0 <= i < k implies names(a)[i] == names(s)[i] by {
            let p = parts(a)[i];
            assert(parts(s)[i] == p);
            assert(0 <= p.0 <= p.1 <= a.len());
            assert(s.subrange(p.0, p.1) =~= a.subrange(p.0, p.1));
        }
    }
}

/// What lies below a directory is known by what follows the directory and a
/// slash.
pub proof fn rest_is_what_follows(dir: Text, rest: Text)
    requires
        dir.len() > 0,
        is_proper(rest),
    ensures
        strip_prefix(slashed(dir, rest), dir) == Some(rest),
{
    let s = slashed(dir, rest);
    what_follows_lies_under(dir, rest);
    lemma_parts_of_both(dir, rest);
    lemma_proper(rest);
    let k = parts(dir).len() as int;
    let back = parts_from(rest, 0);
    let n = (dir.len() + 1) as int;
    assert(parts(s)[k] == (back[0].0 + n, back[0].1 + n));
    assert(parts(s).last() == (back.last().0 + n, back.last().1 + n));
    assert(s.subrange(n, n + rest.len()) =~= rest);
}

/// A file whose canonical path is the root, a slash and `rest` is known as
/// `rest`.
pub proof fn file_below_the_root(disk: Map<Text, Option<Text>>, root: Text, path: Text, rest: Text)
    requires
        root.len() > 0,
        is_proper(rest),
        forall|i: int| 0 <= i < rest.len() ==> #[trigger] rest[i] != '\\',
        disk.contains_key(path),
        disk[path] == Some(slashed(root, rest)),
    ensures
        local_file(disk, root, path) == Some(rest),
{
    rest_is_what_follows(root, rest);
    assert(replace_char(rest, '\\', '/') =~= rest);
}

/// Texts with a character between them.
pub open spec fn strung(parts: Seq<Text>, sep: char) -> Text
    decreases parts.len(),
{
    if parts.len() == 0 {
        Seq::empty()
    } else if parts.len() == 1 {
        parts[0]
    } else {
        strung(parts.drop_last(), sep) + seq![sep] + parts.last()
    }
}

/// A list of names with slashes between them is a path that starts and ends with
/// a name.
pub proof fn strung_names_are_proper(parts: Seq<Text>)
    requires
        parts.len() > 0,
        forall|i: int| 0 <= i < parts.len() ==> is_name(#[trigger] parts[i]),
    ensures
        is_proper(strung(parts, '/')),
        ends_well(strung(parts, '/')),
    decreases parts.len(),
{
    let s = strung(parts, '/');
    let last = parts[parts.len() - 1];
    assert(is_name(last));
    if parts.len() == 1 {
        if s.len() == 1 && s[0] == '.' {
            assert(s =~= seq!['.']);
        }
        if s.len() > 1 {
            assert(s[1] != '/');
            assert(s[s.len() - 2] != '/');
        }
    } else {
        let front = parts.drop_last();
        assert forall|i: int| 0 <= i < front.len() implies is_name(#[trigger] front[i]) by {
            assert(front[i] == parts[i]);
        }
        strung_names_are_proper(front);
        let f = strung(front, '/');
        assert(s == f + seq!['/'] + last);
        assert(s[0] == f[0]);
        assert(s[1] == if f.len() > 1 { f[1] } else { '/' });
        assert(s.last() == last.last());
        if last.len() > 1 {
            assert(s[s.len() - 2] == last[last.len() - 2]);
        } else if last[0] == '.' {
            assert(last =~= seq!['.']);
        }
    }
}

/// What ends in a name ends well.
pub proof fn entries_end_well(dir: Text, name: Text)
    requires
        is_name(name),
    ensures
        ends_well(slashed(dir, name)),
{
    let s = slashed(dir, name);
    assert(s.last() == name.last());
    if name.len() > 1 {
        assert(s[s.len() - 2] == name[name.len() - 2]);
    } else if name[0] == '.' {
        assert(name =~= seq!['.']);
    }
}

/// Behind a directory, a list of names is the names before the last, and then the
/// last.
pub proof fn strung_behind(dir: Text, parts: Seq<Text>)
    requires
        parts.len() > 1,
    ensures
        slashed(dir, strung(parts, '/')) == slashed(slashed(dir, strung(parts.drop_last(), '/')), parts.last()),
{
    assert(slashed(dir, strung(parts, '/')) =~= slashed(
        slashed(dir, strung(parts.drop_last(), '/')),
        parts.last(),
    ));
}

/// The parent of what lies in a directory is the directory.
pub proof fn parent_of_entry(dir: Text, name: Text)
    requires
        ends_well(dir),
        is_name(name),
    ensures
        parent(slashed(dir, name)) == Some(dir),
{
    let s = slashed(dir, name);
    lemma_parts_of_both(dir, name);
    lemma_ends_well(dir);
    lemma_one_part(name);
    let n = (dir.len() + 1) as int;
    let p = parts(s);
    assert(p.last() == (n, n + name.len()));
    assert(s[n] == name[0]);
    assert(p[p.len() - 2] == parts(dir).last());
    assert(s.take(dir.len() as int) =~= dir);
}

proof fn lemma_ends_well(s: Text)
    requires
        ends_well(s),
    ensures
        parts(s).len() > 0,
        parts(s).last().1 == s.len(),
{
    if s[0] == '/' || (s[0] == '.' && (s.len() == 1 || s[1] == '/')) {
        if s.len() == 1 {
            assert(parts_from(s, 1) =~= Seq::<(int, int)>::empty());
        } else if s[0] == '/' {
            lemma_last_part(s, 1);
        } else {
            lemma_last_from(s, 1);
        }
    } else {
        assert(s != seq!['.']);
        lemma_last_part(s, 0);
    }
}

/// From a slash that more follows.
proof fn lemma_last_from(s: Text, i: int)
    requires
        ends_well(s),
        0 < i < s.len(),
        s[i] == '/',
    ensures
        parts_from(s, i).len() > 0,
        parts_from(s, i).last().1 == s.len(),
{
    assert(stretch_end(s, i) == i);
    assert(i + 1 < s.len()) by {
        if i + 1 == s.len() {
            assert(s.last() == '/');
        }
    }
    lemma_last_part(s, i + 1);
}

proof fn lemma_one_part(name: Text)
    requires
        is_name(name),
    ensures
        parts_from(name, 0) == seq![(0int, name.len() as int)],
{
    lemma_no_slash(name, 0);
    if name.len() == 1 && name[0] == '.' {
        assert(name =~= seq!['.']);
    }
    assert(parts_from(name, 1 + name.len() as int) =~= Seq::<(int, int)>::empty());
    assert(parts_from(name, 0) =~= seq![(0int, name.len() as int)]);
}

proof fn lemma_no_slash(name: Text, i: int)
    requires
        is_name(name),
        0 <= i <= name.len(),
    ensures
        stretch_end(name, i) == name.len(),
    decreases name.len() - i,
{
    if i < name.len() {
        lemma_no_slash(name, i + 1);
    }
}

/// The file name of what lies in a directory is its name.
pub proof fn name_of_entry(dir: Text, name: Text)
    requires
        dir.len() > 0,
        is_name(name),
        name != seq!['.', '.'],
    ensures
        file_name(slashed(dir, name)) == Some(name),
{
    reveal_strlit("/");
    reveal_strlit(".");
    reveal_strlit("..");
    let s = slashed(dir, name);
    lemma_parts_of_both(dir, name);
    lemma_one_part(name);
    let n = (dir.len() + 1) as int;
    assert(parts(s).last() == (n, n + name.len()));
    assert(s.subrange(n, n + name.len()) =~= name);
    assert("."@ =~= seq!['.']);
    assert(".."@ =~= seq!['.', '.']);
    if name == "/"@ {
        assert(name[0] == '/');
    }
}

/// A path that is joined to a directory follows it and a slash.
pub proof fn joined_with_a_slash(dir: Text, rest: Text)
    requires
        dir.len() > 0,
        dir.last() != '/',
        rest.len() > 0,
        rest[0] != '/',
    ensures
        join(dir, rest) == slashed(dir, rest),
{
    reveal_strlit("/");
    assert("/"@ =~= seq!['/']);
}

/// What lies in a directory has the parts of the directory, and then its name.
proof fn lemma_names_with_entry(dir: Text, name: Text)
    requires
        dir.len() > 0,
        is_name(name),
    ensures
        names(slashed(dir, name)) == names(dir).push(name),
{
    let s = slashed(dir, name);
    let n = (dir.len() + 1) as int;
    let k = parts(dir).len() as int;
    lemma_parts_of_both(dir, name);
    lemma_one_part(name);
    crate::path::lemma_parts(dir);
    assert(parts(s) =~= parts(dir).push((n, n + name.len())));
    assert forall|i: int| 0 <= i < k implies names(s)[i] == names(dir)[i] by {
        let p = parts(dir)[i];
        assert(parts(s)[i] == p);
        assert(0 <= p.0 <= p.1 <= dir.len());
        assert(s.subrange(p.0, p.1) =~= dir.subrange(p.0, p.1));
    }
    assert(s.subrange(n, n + name.len()) =~= name);
    assert(names(s) =~= names(dir).push(name));
}

/// A list of names with slashes between them has these names for its parts.
pub proof fn names_of_strung(parts: Seq<Text>)
    requires
        parts.len() > 0,
        forall|i: int| 0 <= i < parts.len() ==> is_name(#[trigger] parts[i]),
    ensures
        names(strung(parts, '/')) == parts,
    decreases parts.len(),
{
    let s = strung(parts, '/');
    let last = parts[parts.len() - 1];
    assert(is_name(last));
    lemma_one_part(last);
    if parts.len() == 1 {
        assert(last.len() > 1 ==> last[1] != '/');
        if last[0] == '.' && last.len() == 1 {
            assert(last =~= seq!['.']);
        }
        assert(names(s)[0] =~= last);
        assert(names(s) =~= parts);
    } else {
        let front = parts.drop_last();
        assert forall|i: int| 0 <= i < front.len() implies is_name(#[trigger] front[i]) by {
            assert(front[i] == parts[i]);
        }
        names_of_strung(front);
        strung_names_are_proper(front);
        assert(s == slashed(strung(front, '/'), last));
        lemma_names_with_entry(strung(front, '/'), last);
        assert(front.push(last) =~= parts);
    }
}

/// The parent of a list of names with slashes between them is the names before
/// the last.
pub proof fn parent_of_strung(parts: Seq<Text>)
    requires
        parts.len() > 0,
        forall|i: int| 0 <= i < parts.len() ==> is_name(#[trigger] parts[i]),
    ensures
        parent(strung(parts, '/')) == Some(strung(parts.drop_last(), '/')),
{
    let s = strung(parts, '/');
    let last = parts[parts.len() - 1];
    assert(is_name(last));
    if parts.len() == 1 {
        lemma_one_part(last);
        assert(last.len() > 1 ==> last[1] != '/');
        if last[0] == '.' && last.len() == 1 {
            assert(last =~= seq!['.']);
        }
        assert(strung(parts.drop_last(), '/') =~= Seq::<char>::empty());
    } else {
        let front = parts.drop_last();
        assert forall|i: int| 0 <= i < front.len() implies is_name(#[trigger] front[i]) by {
            assert(front[i] == parts[i]);
        }
        strung_names_are_proper(front);
        parent_of_entry(strung(front, '/'), last);
    }
}

/// A path that starts at the root stands alone; behind nothing, or behind a slash, a
/// path follows as it is.
pub proof fn joined_without_a_slash(dir: Text, rest: Text)
    ensures
        join(dir, seq!['/'] + rest) == seq!['/'] + rest,
        rest.len() > 0 && rest[0] != '/' ==> join(Seq::empty(), rest) == rest && join(dir + seq!['/'], rest) == dir
            + seq!['/'] + rest,
{
    assert((seq!['/'] + rest)[0] == '/');
    assert((dir + seq!['/']).last() == '/');
    assert(Seq::<char>::empty() + rest =~= rest);
}

/// A name that starts with its only dot has no extension, nor has one without
/// dots.
pub proof fn some_names_have_no_extension(dir: Text, name: Text)
    requires
        dir.len() > 0,
        is_name(name),
        name != seq!['.', '.'],
        forall|i: int| 0 < i < name.len() ==> #[trigger] name[i] != '.',
    ensures
        extension(slashed(dir, name)) is None,
{
    reveal_strlit("/");
    reveal_strlit(".");
    reveal_strlit("..");
    let s = slashed(dir, name);
    lemma_parts_of_both(dir, name);
    lemma_one_part(name);
    let n = (dir.len() + 1) as int;
    assert(parts(s).last() == (n, n + name.len()));
    assert(s.subrange(n, n + name.len()) =~= name);
    assert("."@ =~= seq!['.']);
    assert(".."@ =~= seq!['.', '.']);
    if name == "/"@ {
        assert(name[0] == '/');
    }
    lemma_one_dot(s, n, n + name.len());
}

proof fn lemma_one_dot(s: Text, i: int, j: int)
    requires
        0 <= i <= j <= s.len(),
        forall|k: int| i < k < j ==> #[trigger] s[k] != '.',
    ensures
        last_dot(s, i, j) is Some ==> last_dot(s, i, j) == Some(i),
    decreases j - i,
{
    if i < j {
        if j - 1 > i {
            assert(s[j - 1] != '.');
        }
        lemma_one_dot(s, i, j - 1);
    }
}

/// A slash at its end makes no difference to what lies below a directory.
pub proof fn rest_ends_before_a_slash(dir: Text, rest: Text)
    requires
        dir.len() > 0,
        is_proper(rest),
    ensures
        strip_prefix(slashed(dir, rest) + seq!['/'], dir) == Some(rest),
{
    let s = slashed(dir, rest);
    let t = slashed(s, Seq::empty());
    assert(t =~= s + seq!['/']);
    lemma_parts_of_both(s, Seq::empty());
    assert(parts_from(Seq::<char>::empty(), 0) =~= Seq::<(int, int)>::empty());
    assert(parts(t) =~= parts(s));
    crate::path::lemma_parts(s);
    assert(names(t) =~= names(s)) by {
        assert forall|i: int| 0 <= i < parts(s).len() implies names(t)[i] == names(s)[i] by {
            let p = parts(s)[i];
            assert(0 <= p.0 <= p.1 <= s.len());
            assert(t.subrange(p.0, p.1) =~= s.subrange(p.0, p.1));
        }
    }
    rest_is_what_follows(dir, rest);
    what_follows_lies_under(dir, rest);
    lemma_parts_of_both(dir, rest);
    lemma_proper(rest);
    let k = parts(dir).len() as int;
    let p = parts(s)[k];
    let q = parts(s).last();
    assert(0 <= p.0 && q.1 <= s.len());
    assert(t.subrange(p.0, q.1) =~= s.subrange(p.0, q.1));
}

} // verus!
