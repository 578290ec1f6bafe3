//! What comments and trailing commas are.
use vstd::prelude::*;

use crate::lang::jsonc::{behind_close, closes, from_first, lemma_rests, without_comments, without_trailing_commas};
use crate::text::Text;

verus! {

/// Whether a text holds neither a quote nor a slash.
pub open spec fn is_bare(s: Text) -> bool {
    forall|i: int| 0 <= i < s.len() ==> #[trigger] s[i] != '"' && s[i] != '/'
}

/// Whether Unicode counts a character as white space.
pub open spec fn is_blank_char(c: char) -> bool {
    let n = c as int;
    ||| 9 <= n <= 13 || n == 32 || n == 0x85 || n == 0xa0
    ||| n == 0x1680 || 0x2000 <= n <= 0x200a || n == 0x2028 || n == 0x2029
    ||| n == 0x202f || n == 0x205f || n == 0x3000
}

/// Whether a text is white space of one line or several.
pub open spec fn is_blank(s: Text) -> bool {
    forall|i: int| 0 <= i < s.len() ==> is_blank_char(#[trigger] s[i])
}

/// Bare text in front stays as it is.
pub proof fn bare_text_stays(a: Text, rest: Text)
    requires
        is_bare(a),
    ensures
        without_comments(a + rest, false) == a + without_comments(rest, false),
    decreases a.len(),
{
    if a.len() == 0 {
        assert(a + rest =~= rest);
        assert(a + without_comments(rest, false) =~= without_comments(rest, false));
    } else {
        let s = a + rest;
        let less = a.skip(1);
        assert(s[0] == a[0]);
        assert(s.skip(1) =~= less + rest);
        assert(s.take(1) =~= a.take(1));
        assert forall|i: int| 0 <= i < less.len() implies #[trigger] less[i] != '"' && less[i] != '/' by {
            assert(less[i] == a[i + 1]);
        }
        bare_text_stays(less, rest);
        assert(a.take(1) + (less + without_comments(rest, false)) =~= a + without_comments(rest, false));
    }
}

proof fn lemma_line(c: Text, rest: Text)
    requires
        forall|i: int| 0 <= i < c.len() ==> #[trigger] c[i] != '\n',
    ensures
        from_first(c + seq!['\n'] + rest, '\n') == seq!['\n'] + rest,
        from_first(c, '\n').len() == 0,
    decreases c.len(),
{
    let s = c + seq!['\n'] + rest;
    if c.len() == 0 {
        assert(s =~= seq!['\n'] + rest);
    } else {
        assert(s[0] == c[0]);
        let less = c.skip(1);
        assert(s.skip(1) =~= less + seq!['\n'] + rest);
        assert forall|i: int| 0 <= i < less.len() implies #[trigger] less[i] != '\n' by {
            assert(less[i] == c[i + 1]);
        }
        lemma_line(less, rest);
    }
}

/// A comment behind two slashes goes up to the end of its line, which stays.
pub proof fn line_comments_go(c: Text, rest: Text)
    requires
        forall|i: int| 0 <= i < c.len() ==> #[trigger] c[i] != '\n',
    ensures
        without_comments(seq!['/', '/'] + c + seq!['\n'] + rest, false) == seq!['\n'] + without_comments(rest, false),
        without_comments(seq!['/', '/'] + c, false).len() == 0,
{
    let d = seq!['/', '/'] + c;
    let s = d + seq!['\n'] + rest;
    assert(s[0] == '/' && s[1] == '/');
    assert(d[0] == '/' && d[1] == '/');
    assert forall|i: int| 0 <= i < d.len() implies #[trigger] d[i] != '\n' by {
        if i >= 2 {
            assert(d[i] == c[i - 2]);
        }
    }
    lemma_line(d, rest);
    lemma_rests(s);
    lemma_rests(d);
    let line = seq!['\n'] + rest;
    assert(line[0] == '\n');
    assert(line.skip(1) =~= rest);
    assert(line.take(1) =~= seq!['\n']);
    assert(without_comments(line, false) == seq!['\n'] + without_comments(rest, false));
    let none = from_first(d, '\n');
    assert(without_comments(none, false).len() == 0);
    assert(without_comments(d, false) == without_comments(none, false));
}

proof fn lemma_block(c: Text, rest: Text)
    requires
        forall|i: int|
            0 <= i < c.len() ==> !((#[trigger] c[i]) == '*' && (c + seq!['*', '/'])[i + 1] == '/'),
    ensures
        behind_close(c + seq!['*', '/'] + rest) == rest,
    decreases c.len(),
{
    let s = c + seq!['*', '/'] + rest;
    if c.len() == 0 {
        assert(s[0] == '*' && s[1] == '/');
        assert(s.skip(2) =~= rest);
    } else {
        let less = c.skip(1);
        assert(s[0] == c[0]);
        assert(s[1] == (c + seq!['*', '/'])[1]);
        assert(!(c[0] == '*' && (c + seq!['*', '/'])[0int + 1] == '/'));
        assert(s.skip(1) =~= less + seq!['*', '/'] + rest);
        assert forall|i: int| 0 <= i < less.len() implies !((#[trigger] less[i]) == '*' && (less + seq!['*', '/'])[i
            + 1] == '/') by {
            assert(less[i] == c[i + 1]);
            assert((less + seq!['*', '/'])[i + 1] == (c + seq!['*', '/'])[i + 2]);
            assert(!(c[i + 1] == '*' && (c + seq!['*', '/'])[i + 1 + 1] == '/'));
        }
        lemma_block(less, rest);
    }
}

/// A comment between a slash with a star and the next star with a slash goes, with
/// nothing in its place.
pub proof fn block_comments_go(c: Text, rest: Text)
    requires
        forall|i: int|
            0 <= i < c.len() ==> !((#[trigger] c[i]) == '*' && (c + seq!['*', '/'])[i + 1] == '/'),
    ensures
        without_comments(seq!['/', '*'] + c + seq!['*', '/'] + rest, false) == without_comments(rest, false),
{
    let s = seq!['/', '*'] + c + seq!['*', '/'] + rest;
    assert(s[0] == '/' && s[1] == '*');
    assert(s.skip(2) =~= c + seq!['*', '/'] + rest);
    lemma_block(c, rest);
    lemma_rests(s);
}

proof fn lemma_in_string(c: Text, rest: Text)
    requires
        forall|i: int| 0 <= i < c.len() ==> #[trigger] c[i] != '"' && c[i] != '\\',
    ensures
        without_comments(c + seq!['"'] + rest, true) == c + seq!['"'] + without_comments(rest, false),
        without_trailing_commas(c + seq!['"'] + rest, true) == c + seq!['"'] + without_trailing_commas(rest, false),
    decreases c.len(),
{
    let s = c + seq!['"'] + rest;
    if c.len() == 0 {
        assert(s[0] == '"');
        assert(s.skip(1) =~= rest);
        assert(s.take(1) =~= seq!['"']);
        assert(c + seq!['"'] + without_comments(rest, false) =~= seq!['"'] + without_comments(rest, false));
        assert(c + seq!['"'] + without_trailing_commas(rest, false) =~= seq!['"'] + without_trailing_commas(
            rest,
            false,
        ));
    } else {
        let less = c.skip(1);
        assert(s[0] == c[0]);
        assert(s.skip(1) =~= less + seq!['"'] + rest);
        assert(s.take(1) =~= c.take(1));
        assert forall|i: int| 0 <= i < less.len() implies #[trigger] less[i] != '"' && less[i] != '\\' by {
            assert(less[i] == c[i + 1]);
        }
        lemma_in_string(less, rest);
        assert(c.take(1) + (less + seq!['"'] + without_comments(rest, false)) =~= c + seq!['"'] + without_comments(
            rest,
            false,
        ));
        assert(c.take(1) + (less + seq!['"'] + without_trailing_commas(rest, false)) =~= c + seq!['"']
            + without_trailing_commas(rest, false));
    }
}

/// A string stays as it is, whatever it holds.
pub proof fn strings_stay(c: Text, rest: Text)
    requires
        forall|i: int| 0 <= i < c.len() ==> #[trigger] c[i] != '"' && c[i] != '\\',
    ensures
        without_comments(seq!['"'] + c + seq!['"'] + rest, false) == seq!['"'] + c + seq!['"'] + without_comments(
            rest,
            false,
        ),
        without_trailing_commas(seq!['"'] + c + seq!['"'] + rest, false) == seq!['"'] + c + seq!['"']
            + without_trailing_commas(rest, false),
{
    let s = seq!['"'] + c + seq!['"'] + rest;
    assert(s[0] == '"');
    assert(s.skip(1) =~= c + seq!['"'] + rest);
    assert(s.take(1) =~= seq!['"']);
    lemma_in_string(c, rest);
    assert(seq!['"'] + (c + seq!['"'] + without_comments(rest, false)) =~= seq!['"'] + c + seq!['"']
        + without_comments(rest, false));
    assert(seq!['"'] + (c + seq!['"'] + without_trailing_commas(rest, false)) =~= seq!['"'] + c + seq!['"']
        + without_trailing_commas(rest, false));
}

/// Inside a string, a backslash keeps the character behind it from ending the
/// string.
pub proof fn escapes_do_not_end_strings(x: char, rest: Text)
    ensures
        without_comments(seq!['\\', x] + rest, true) == seq!['\\', x] + without_comments(rest, true),
        without_trailing_commas(seq!['\\', x] + rest, true) == seq!['\\', x] + without_trailing_commas(rest, true),
{
    let s = seq!['\\', x] + rest;
    assert(s[0] == '\\');
    assert(s.skip(2) =~= rest);
    assert(s.take(2) =~= seq!['\\', x]);
}

proof fn lemma_blank(w: Text, rest: Text)
    requires
        is_blank(w),
    ensures
        closes(w + rest) == closes(rest),
        without_trailing_commas(w + rest, false) == w + without_trailing_commas(rest, false),
    decreases w.len(),
{
    if w.len() == 0 {
        assert(w + rest =~= rest);
        assert(w + without_trailing_commas(rest, false) =~= without_trailing_commas(rest, false));
    } else {
        let s = w + rest;
        let less = w.skip(1);
        assert(s[0] == w[0]);
        assert(s.skip(1) =~= less + rest);
        assert(s.take(1) =~= w.take(1));
        assert(is_blank_char(w[0]));
        assert forall|i: int| 0 <= i < less.len() implies is_blank_char(#[trigger] less[i]) by {
            assert(less[i] == w[i + 1]);
        }
        lemma_blank(less, rest);
        assert(w.take(1) + (less + without_trailing_commas(rest, false)) =~= w + without_trailing_commas(
            rest,
            false,
        ));
    }
}

/// A comma goes where nothing but white space stands between it and a closing
/// bracket, and stays where anything else does.
pub proof fn trailing_commas_go(w: Text, c: char, rest: Text)
    requires
        is_blank(w),
    ensures
        c == '}' || c == ']' ==> without_trailing_commas(seq![','] + w + seq![c] + rest, false) == w + seq![c]
            + without_trailing_commas(rest, false),
        c != '}' && c != ']' && !is_blank_char(c) ==> without_trailing_commas(
            seq![','] + w + seq![c] + rest,
            false,
        ) == seq![','] + w + without_trailing_commas(seq![c] + rest, false),
{
    let back = seq![c] + rest;
    let s = seq![','] + w + seq![c] + rest;
    assert(s[0] == ',');
    assert(s.skip(1) =~= w + back);
    assert(s.take(1) =~= seq![',']);
    lemma_blank(w, back);
    assert(back[0] == c);
    assert(back.skip(1) =~= rest);
    assert(back.take(1) =~= seq![c]);
    if c == '}' || c == ']' {
        assert(closes(back));
        assert(without_trailing_commas(back, false) == seq![c] + without_trailing_commas(rest, false));
        assert(w + (seq![c] + without_trailing_commas(rest, false)) =~= w + seq![c] + without_trailing_commas(
            rest,
            false,
        ));
    } else if !is_blank_char(c) {
        assert(!closes(back));
        assert(seq![','] + (w + without_trailing_commas(back, false)) =~= seq![','] + w + without_trailing_commas(
            back,
            false,
        ));
    }
}

} // verus!
