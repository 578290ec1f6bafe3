//! JSON with comments and trailing commas, turned into plain JSON.
use vstd::prelude::*;

use crate::text::{chars_of, Text};

verus! {

/// The rest of `s` from the first `c` on; nothing where `c` does not occur.
pub open spec fn from_first(s: Text, c: char) -> Text
    decreases s.len(),
{
    if s.len() == 0 || s[0] == c {
        s
    } else {
        from_first(s.skip(1), c)
    }
}

/// The rest of `s` behind the first `*/`; nothing where there is none.
pub open spec fn behind_close(s: Text) -> Text
    decreases s.len(),
{
    if s.len() < 2 {
        Seq::empty()
    } else if s[0] == '*' && s[1] == '/' {
        s.skip(2)
    } else {
        behind_close(s.skip(1))
    }
}

/// `s` without comments. Inside a string, which a quote that no backslash
/// precedes ends, nothing is a comment. A comment behind `//` ends before the
/// end of the line.
pub open spec fn without_comments(s: Text, in_string: bool) -> Text
    decreases s.len(),
{
    proof {
        lemma_rests(s);
    }
    if s.len() == 0 {
        s
    } else if in_string {
        if s[0] == '\\' && s.len() > 1 {
            s.take(2) + without_comments(s.skip(2), true)
        } else {
            s.take(1) + without_comments(s.skip(1), s[0] != '"')
        }
    } else if s.len() > 1 && s[0] == '/' && s[1] == '/' {
        without_comments(from_first(s, '\n'), false)
    } else if s.len() > 1 && s[0] == '/' && s[1] == '*' {
        without_comments(behind_close(s.skip(2)), false)
    } else {
        s.take(1) + without_comments(s.skip(1), s[0] == '"')
    }
}

/// Skipping a comment leaves less.
pub proof fn lemma_rests(s: Text)
    ensures
        from_first(s, '\n').len() <= s.len(),
        s.len() > 0 && s[0] != '\n' ==> from_first(s, '\n').len() < s.len(),
        from_first(s, '\n').len() > 0 ==> from_first(s, '\n')[0] == '\n',
        s.len() > 1 ==> behind_close(s.skip(2)).len() < s.len(),
        behind_close(s).len() <= s.len(),
    decreases s.len(),
{
    if s.len() > 0 {
        lemma_rests(s.skip(1));
    }
    if s.len() > 1 {
        lemma_rests(s.skip(2));
    }
}

/// Whether a comment starts in `s`, outside of strings.
pub open spec fn has_comment(s: Text, in_string: bool) -> bool
    decreases s.len(),
{
    if s.len() == 0 {
        false
    } else if in_string {
        if s[0] == '\\' && s.len() > 1 {
            has_comment(s.skip(2), true)
        } else {
            has_comment(s.skip(1), s[0] != '"')
        }
    } else if s.len() > 1 && s[0] == '/' && (s[1] == '/' || s[1] == '*') {
        true
    } else {
        has_comment(s.skip(1), s[0] == '"')
    }
}

/// A text in which no comment stands outside of strings is unchanged.
pub proof fn uncommented_unchanged(s: Text, in_string: bool)
    requires
        !has_comment(s, in_string),
    ensures
        without_comments(s, in_string) == s,
    decreases s.len(),
{
    if s.len() > 0 {
        if in_string && s[0] == '\\' && s.len() > 1 {
            uncommented_unchanged(s.skip(2), true);
            assert(s.take(2) + s.skip(2) =~= s);
        } else {
            uncommented_unchanged(s.skip(1), if in_string { s[0] != '"' } else { s[0] == '"' });
            assert(s.take(1) + s.skip(1) =~= s);
        }
    }
}

/// No comment is left.
pub proof fn comments_are_gone(s: Text, in_string: bool)
    ensures
        !has_comment(without_comments(s, in_string), in_string),
    decreases s.len(),
{
    lemma_rests(s);
    let once = without_comments(s, in_string);
    if s.len() == 0 {
    } else if in_string {
        if s[0] == '\\' && s.len() > 1 {
            comments_are_gone(s.skip(2), true);
            assert(once.skip(2) =~= without_comments(s.skip(2), true));
        } else {
            comments_are_gone(s.skip(1), s[0] != '"');
            assert(once.skip(1) =~= without_comments(s.skip(1), s[0] != '"'));
            if s[0] == '\\' {
                assert(once =~= s);
            }
        }
    } else if s.len() > 1 && s[0] == '/' && s[1] == '/' {
        comments_are_gone(from_first(s, '\n'), false);
    } else if s.len() > 1 && s[0] == '/' && s[1] == '*' {
        comments_are_gone(behind_close(s.skip(2)), false);
    } else {
        let rest = without_comments(s.skip(1), s[0] == '"');
        comments_are_gone(s.skip(1), s[0] == '"');
        assert(once.skip(1) =~= rest);
        if s[0] == '/' && s.len() > 1 {
            assert(s.skip(1)[0] == s[1]);
            assert(rest[0] == s[1]);
        }
    }
}

/// Taking the comments out of what has lost them changes nothing.
pub proof fn comments_go_once(s: Text, in_string: bool)
    ensures
        without_comments(without_comments(s, in_string), in_string) == without_comments(s, in_string),
{
    comments_are_gone(s, in_string);
    uncommented_unchanged(without_comments(s, in_string), in_string);
}

/// Whether `at` gives, for each character of `r` in order, where it stands in
/// `s`.
pub open spec fn is_picking(at: Seq<int>, r: Text, s: Text) -> bool {
    &&& at.len() == r.len()
    &&& forall|i: int| 0 <= i < at.len() ==> 0 <= #[trigger] at[i] < s.len() && s[at[i]] == r[i]
    &&& forall|i: int, j: int| 0 <= i < j < at.len() ==> #[trigger] at[i] < #[trigger] at[j]
}

/// Whether `r` is `s` with characters left out.
pub open spec fn picked(r: Text, s: Text) -> bool {
    exists|at: Seq<int>| is_picking(at, r, s)
}

/// Some first characters kept, some more left out, and the rest picked from.
proof fn lemma_picked(r: Text, s: Text, kept: int, seen: int)
    requires
        0 <= kept <= seen <= s.len(),
        picked(r, s.skip(seen)),
    ensures
        picked(s.take(kept) + r, s),
{
    let rest = s.skip(seen);
    let at = choose|at: Seq<int>| is_picking(at, r, rest);
    let all = Seq::new(
        (kept + at.len()) as nat,
        |i: int|
            if i < kept {
                i
            } else {
                at[i - kept] + seen
            },
    );
    let whole = s.take(kept) + r;
    assert forall|i: int| 0 <= i < all.len() implies 0 <= #[trigger] all[i] < s.len() && s[all[i]]
        == whole[i] by {
        if i >= kept {
            assert(0 <= at[i - kept] < rest.len());
        }
    }
    assert forall|i: int, j: int| 0 <= i < j < all.len() implies #[trigger] all[i] < #[trigger] all[j] by {
        if i >= kept {
            assert(at[i - kept] < at[j - kept]);
        } else if j >= kept {
            assert(0 <= at[j - kept]);
        }
    }
    assert(is_picking(all, whole, s));
}

proof fn lemma_from_first(s: Text, c: char) -> (n: int)
    ensures
        0 <= n <= s.len(),
        from_first(s, c) == s.skip(n),
    decreases s.len(),
{
    if s.len() == 0 || s[0] == c {
        assert(s.skip(0) =~= s);
        0
    } else {
        let n = lemma_from_first(s.skip(1), c);
        assert(s.skip(1).skip(n) =~= s.skip(n + 1));
        n + 1
    }
}

proof fn lemma_behind_close(s: Text) -> (n: int)
    ensures
        0 <= n <= s.len(),
        behind_close(s) == s.skip(n),
    decreases s.len(),
{
    if s.len() < 2 {
        assert(s.skip(s.len() as int) =~= Seq::<char>::empty());
        s.len() as int
    } else if s[0] == '*' && s[1] == '/' {
        2
    } else {
        let n = lemma_behind_close(s.skip(1));
        assert(s.skip(1).skip(n) =~= s.skip(n + 1));
        n + 1
    }
}

/// Taking the comments out only leaves characters out.
pub proof fn comments_are_left_out(s: Text, in_string: bool)
    ensures
        picked(without_comments(s, in_string), s),
    decreases s.len(),
{
    lemma_rests(s);
    if s.len() == 0 {
        assert(is_picking(Seq::empty(), s, s));
    } else if in_string && s[0] == '\\' && s.len() > 1 {
        comments_are_left_out(s.skip(2), true);
        lemma_picked(without_comments(s.skip(2), true), s, 2, 2);
    } else if !in_string && s.len() > 1 && s[0] == '/' && s[1] == '/' {
        let rest = from_first(s, '\n');
        comments_are_left_out(rest, false);
        let n = lemma_from_first(s, '\n');
        lemma_picked(without_comments(rest, false), s, 0, n);
        assert(s.take(0) + without_comments(rest, false) =~= without_comments(rest, false));
    } else if !in_string && s.len() > 1 && s[0] == '/' && s[1] == '*' {
        let rest = behind_close(s.skip(2));
        comments_are_left_out(rest, false);
        let n = lemma_behind_close(s.skip(2));
        assert(s.skip(2).skip(n) =~= s.skip(n + 2));
        lemma_picked(without_comments(rest, false), s, 0, n + 2);
        assert(s.take(0) + without_comments(rest, false) =~= without_comments(rest, false));
    } else {
        let next = if in_string {
            s[0] != '"'
        } else {
            s[0] == '"'
        };
        comments_are_left_out(s.skip(1), next);
        lemma_picked(without_comments(s.skip(1), next), s, 1, 1);
    }
}

/// Strips `//` and `/* */` comments, but not inside strings.
pub fn strip_jsonc_comments(input: &str) -> (r: String)
    ensures
        r@ == without_comments(input@, false),
{
    let chars = chars_of(input);
    let ghost s = input@;
    let n = chars.len();
    let mut out = String::new();
    let mut in_string = false;
    let mut i: usize = 0;
    assert(s.skip(0) =~= s);
    while i < n
        invariant
            i <= n == chars@.len(),
            chars@ == s,
            out@ + without_comments(s.skip(i as int), in_string) =~= without_comments(s, false),
        decreases n - i,
    {
        let c = chars[i];
        let ghost rest = s.skip(i as int);
        let ghost was = out@;
        assert(rest[0] == c);
        assert(rest.len() > 1 ==> rest[1] == s[i + 1]);
        assert(rest.skip(1) =~= s.skip(i + 1));
        assert(rest.take(1) =~= seq![c]);
        if in_string {
            out.push(c);
            if c == '\\' && i + 1 < n {
                out.push(chars[i + 1]);
                assert(rest.take(2) =~= seq![c, s[i + 1]]);
                assert(rest.skip(2) =~= s.skip(i + 2));
                i = i + 2;
            } else {
                in_string = c != '"';
                i = i + 1;
            }
        } else if c == '/' && i + 1 < n && chars[i + 1] == '/' {
            let ghost from = i;
            while i < n && chars[i] != '\n'
                invariant
                    i <= n == chars@.len(),
                    chars@ == s,
                    from_first(rest, '\n') == from_first(s.skip(i as int), '\n'),
                    i >= from,
                    i == n || i > from || s[i as int] == '/',
                ensures
                    i <= n,
                    from_first(rest, '\n') == s.skip(i as int),
                    i > from || i == n,
                decreases n - i,
            {
                assert(s.skip(i as int).skip(1) =~= s.skip(i + 1));
                i = i + 1;
            }
        } else if c == '/' && i + 1 < n && chars[i + 1] == '*' {
            let ghost body = rest.skip(2);
            let ghost from = i;
            i = i + 2;
            assert(body =~= s.skip(i as int));
            let mut closed = false;
            while !closed && i < n
                invariant
                    from < i <= n == chars@.len(),
                    chars@ == s,
                    closed ==> behind_close(body) == s.skip(i as int),
                    !closed ==> behind_close(body) == behind_close(s.skip(i as int)),
                decreases n - i,
            {
                if chars[i] == '*' && i + 1 < n && chars[i + 1] == '/' {
                    assert(s.skip(i as int).skip(2) =~= s.skip(i + 2));
                    closed = true;
                    i = i + 2;
                } else {
                    assert(s.skip(i as int).skip(1) =~= s.skip(i + 1));
                    i = i + 1;
                }
            }
            assert(i == n ==> s.skip(i as int) =~= Seq::<char>::empty());
        } else {
            out.push(c);
            in_string = c == '"';
            i = i + 1;
        }
    }
    assert(s.skip(n as int) =~= Seq::<char>::empty());
    out
}

/// Whether a character is white space.
pub open spec fn is_space(c: char) -> bool {
    ||| '\t' <= c <= '\r'
    ||| c == ' '
    ||| c == '\u{85}'
    ||| c == '\u{a0}'
    ||| c == '\u{1680}'
    ||| '\u{2000}' <= c <= '\u{200a}'
    ||| c == '\u{2028}'
    ||| c == '\u{2029}'
    ||| c == '\u{202f}'
    ||| c == '\u{205f}'
    ||| c == '\u{3000}'
}

/// Whether a character is white space.
pub fn is_white_space(c: char) -> (r: bool)
    ensures
        r == is_space(c),
{
    ('\t' <= c && c <= '\r') || c == ' ' || c == '\u{85}' || c == '\u{a0}' || c == '\u{1680}' || (
    '\u{2000}' <= c && c <= '\u{200a}') || c == '\u{2028}' || c == '\u{2029}' || c == '\u{202f}'
        || c == '\u{205f}' || c == '\u{3000}'
}

/// Whether a bracket closes behind the white space that `s` starts with.
pub open spec fn closes(s: Text) -> bool
    decreases s.len(),
{
    if s.len() == 0 {
        false
    } else if is_space(s[0]) {
        closes(s.skip(1))
    } else {
        s[0] == '}' || s[0] == ']'
    }
}

/// `s` without the commas before a closing bracket, but for those inside
/// strings.
pub open spec fn without_trailing_commas(s: Text, in_string: bool) -> Text
    decreases s.len(),
{
    if s.len() == 0 {
        s
    } else if in_string {
        if s[0] == '\\' && s.len() > 1 {
            s.take(2) + without_trailing_commas(s.skip(2), true)
        } else {
            s.take(1) + without_trailing_commas(s.skip(1), s[0] != '"')
        }
    } else if s[0] == ',' && closes(s.skip(1)) {
        without_trailing_commas(s.skip(1), false)
    } else {
        s.take(1) + without_trailing_commas(s.skip(1), s[0] == '"')
    }
}

/// What is no comma.
pub open spec fn no_comma() -> spec_fn(char) -> bool {
    |c: char| c != ','
}

/// Nothing but commas goes.
pub proof fn only_commas_go(s: Text, in_string: bool)
    ensures
        without_trailing_commas(s, in_string).filter(no_comma()) == s.filter(no_comma()),
    decreases s.len(),
{
    let f = no_comma();
    if s.len() > 0 {
        let n: int = if in_string && s[0] == '\\' && s.len() > 1 {
            2
        } else {
            1
        };
        let next = if n == 2 {
            true
        } else if in_string {
            s[0] != '"'
        } else {
            s[0] == '"'
        };
        let rest = s.skip(n);
        only_commas_go(rest, next);
        assert(s.take(n) + rest =~= s);
        Seq::<char>::filter_distributes_over_add(s.take(n), rest, f);
        Seq::<char>::filter_distributes_over_add(
            s.take(n),
            without_trailing_commas(rest, next),
            f,
        );
        if !in_string && s[0] == ',' && closes(s.skip(1)) {
            assert(s.take(1) =~= Seq::<char>::empty().push(','));
            Seq::<char>::empty().lemma_filter_push(',', f);
            reveal(Seq::filter);
            assert(s.take(1).filter(f) =~= Seq::<char>::empty());
        }
    }
}

/// Whether a comma before a closing bracket stands in `s`, outside of strings.
pub open spec fn has_trailing_comma(s: Text, in_string: bool) -> bool
    decreases s.len(),
{
    if s.len() == 0 {
        false
    } else if in_string {
        if s[0] == '\\' && s.len() > 1 {
            has_trailing_comma(s.skip(2), true)
        } else {
            has_trailing_comma(s.skip(1), s[0] != '"')
        }
    } else if s[0] == ',' && closes(s.skip(1)) {
        true
    } else {
        has_trailing_comma(s.skip(1), s[0] == '"')
    }
}

/// A text in which no comma before a closing bracket stands outside of strings
/// is unchanged.
pub proof fn without_trailing_comma_unchanged(s: Text, in_string: bool)
    requires
        !has_trailing_comma(s, in_string),
    ensures
        without_trailing_commas(s, in_string) == s,
    decreases s.len(),
{
    if s.len() > 0 {
        if in_string && s[0] == '\\' && s.len() > 1 {
            without_trailing_comma_unchanged(s.skip(2), true);
            assert(s.take(2) + s.skip(2) =~= s);
        } else {
            without_trailing_comma_unchanged(
                s.skip(1),
                if in_string {
                    s[0] != '"'
                } else {
                    s[0] == '"'
                },
            );
            assert(s.take(1) + s.skip(1) =~= s);
        }
    }
}

/// Taking the commas out only leaves characters out.
pub proof fn commas_are_left_out(s: Text, in_string: bool)
    ensures
        picked(without_trailing_commas(s, in_string), s),
    decreases s.len(),
{
    if s.len() == 0 {
        assert(is_picking(Seq::empty(), s, s));
    } else if in_string && s[0] == '\\' && s.len() > 1 {
        commas_are_left_out(s.skip(2), true);
        lemma_picked(without_trailing_commas(s.skip(2), true), s, 2, 2);
    } else if !in_string && s[0] == ',' && closes(s.skip(1)) {
        let rest = without_trailing_commas(s.skip(1), false);
        commas_are_left_out(s.skip(1), false);
        lemma_picked(rest, s, 0, 1);
        assert(s.take(0) + rest =~= rest);
    } else {
        let next = if in_string {
            s[0] != '"'
        } else {
            s[0] == '"'
        };
        commas_are_left_out(s.skip(1), next);
        lemma_picked(without_trailing_commas(s.skip(1), next), s, 1, 1);
    }
}

/// Removes the commas before `}` and `]`, but not inside strings.
pub fn strip_trailing_commas(input: &str) -> (r: String)
    ensures
        r@ == without_trailing_commas(input@, false),
{
    let chars = chars_of(input);
    let ghost s = input@;
    let n = chars.len();
    let mut out = String::new();
    let mut in_string = false;
    let mut i: usize = 0;
    assert(s.skip(0) =~= s);
    while i < n
        invariant
            i <= n == chars@.len(),
            chars@ == s,
            out@ + without_trailing_commas(s.skip(i as int), in_string) =~= without_trailing_commas(
                s,
                false,
            ),
        decreases n - i,
    {
        let c = chars[i];
        let ghost rest = s.skip(i as int);
        assert(rest[0] == c);
        assert(rest.skip(1) =~= s.skip(i + 1));
        assert(rest.take(1) =~= seq![c]);
        if in_string {
            out.push(c);
            if c == '\\' && i + 1 < n {
                out.push(chars[i + 1]);
                assert(rest.take(2) =~= seq![c, s[i + 1]]);
                assert(rest.skip(2) =~= s.skip(i + 2));
                i = i + 2;
            } else {
                in_string = c != '"';
                i = i + 1;
            }
        } else {
            let mut dropped = false;
            if c == ',' {
                let mut j: usize = i + 1;
                while j < n && is_white_space(chars[j])
                    invariant
                        j <= n == chars@.len(),
                        chars@ == s,
                        closes(rest.skip(1)) == closes(s.skip(j as int)),
                    decreases n - j,
                {
                    assert(s.skip(j as int).skip(1) =~= s.skip(j + 1));
                    j = j + 1;
                }
                dropped = j < n && (chars[j] == '}' || chars[j] == ']');
            }
            if !dropped {
                out.push(c);
                in_string = c == '"';
            }
            i = i + 1;
        }
    }
    assert(s.skip(n as int) =~= Seq::<char>::empty());
    out
}

} // verus!
