//! Which files a query means.
use vstd::prelude::*;

use crate::model::CtxEntry;
use crate::path::appended_extension;
use crate::placing::{slashed, strung};
use crate::show::{means, note_of, output_stem, query_parts};
use crate::text::{lemma_split_len, split, trim_end, trim_start, Text};

verus! {

/// The pieces of two texts with a slash between them are those of the one and
/// then those of the other.
proof fn lemma_split_both(a: Text, b: Text)
    ensures
        split(slashed(a, b), '/') == split(a, '/') + split(b, '/'),
    decreases b.len(),
{
    let s = slashed(a, b);
    if b.len() == 0 {
        assert(s.drop_last() =~= a);
        assert(split(s, '/') =~= split(a, '/') + split(b, '/'));
    } else {
        assert(s.drop_last() =~= slashed(a, b.drop_last()));
        assert(s.last() == b.last());
        lemma_split_both(a, b.drop_last());
        lemma_split_len(b.drop_last(), '/');
        let x = split(a, '/');
        let y = split(b.drop_last(), '/');
        assert((x + y).last() == y.last());
        assert((x + y).drop_last() =~= x + y.drop_last());
        assert(split(s, '/') =~= x + split(b, '/'));
    }
}

/// The pieces of a text with slashes between them are the text.
proof fn lemma_strung_pieces(s: Text)
    ensures
        strung(split(s, '/'), '/') == s,
    decreases s.len(),
{
    let x = split(s, '/');
    if s.len() == 0 {
        assert(x.len() == 1);
        assert(s =~= x[0]);
    } else {
        let before = split(s.drop_last(), '/');
        lemma_strung_pieces(s.drop_last());
        lemma_split_len(s.drop_last(), '/');
        if s.last() == '/' {
            assert(x.drop_last() =~= before);
            assert(s =~= s.drop_last() + seq!['/'] + Seq::<char>::empty());
        } else {
            let last = before.last();
            assert(x.drop_last() =~= before.drop_last());
            assert(x.last() == last.push(s.last()));
            if before.len() == 1 {
                assert(s =~= s.drop_last().push(s.last()));
            } else {
                let front = strung(before.drop_last(), '/') + seq!['/'];
                assert(s.drop_last() == front + last);
                assert(s =~= s.drop_last().push(s.last()));
                assert((front + last).push(s.last()) =~= front + last.push(s.last()));
            }
        }
    }
}

proof fn lemma_strung_both(x: Seq<Text>, y: Seq<Text>)
    requires
        x.len() > 0,
        y.len() > 0,
    ensures
        strung(x + y, '/') == slashed(strung(x, '/'), strung(y, '/')),
    decreases y.len(),
{
    let all = x + y;
    assert(all.last() == y.last());
    if y.len() == 1 {
        assert(all.drop_last() =~= x);
    } else {
        assert(all.drop_last() =~= x + y.drop_last());
        lemma_strung_both(x, y.drop_last());
        assert(strung(all, '/') =~= slashed(strung(x, '/'), strung(y, '/')));
    }
}

/// A query that starts and ends with the name of a directory or a file means the
/// path that it is, and every path that ends with a slash and the query.
pub proof fn queries_mean_the_ends_of_paths(query: Text, path: Text)
    requires
        query.len() > 0,
        query[0] != '/',
        query.last() != '/',
    ensures
        means(query, path) <==> path == query || exists|front: Text| path == #[trigger] slashed(front, query),
{
    assert(query_parts(query) == split(query, '/'));
    let q = split(query, '/');
    let p = split(path, '/');
    if exists|front: Text| path == #[trigger] slashed(front, query) {
        let front = choose|front: Text| path == #[trigger] slashed(front, query);
        lemma_split_both(front, query);
        assert(q =~= p.subrange(p.len() - q.len(), p.len() as int));
    }
    if q.is_suffix_of(p) {
        lemma_strung_pieces(query);
        lemma_strung_pieces(path);
        lemma_split_len(query, '/');
        let x = p.take(p.len() - q.len());
        assert(p =~= x + q);
        if x.len() == 0 {
            assert(p =~= q);
        } else {
            lemma_strung_both(x, q);
            assert(path == slashed(strung(x, '/'), query));
        }
    }
}

/// A slash in front of such a query makes no difference, unless a path starts with
/// one; nor does a slash behind it.
pub proof fn slashes_around_a_query_count_for_nothing(query: Text, path: Text)
    requires
        query.len() > 0,
        query[0] != '/',
        query.last() != '/',
    ensures
        path != seq!['/'] + query ==> means(seq!['/'] + query, path) == means(query, path),
        path != query.push('/') ==> means(query.push('/'), path) == means(query, path),
{
    let a = seq!['/'] + query;
    let b = query.push('/');
    assert(a.skip(1) =~= query);
    assert(trim_start(query, '/') == query);
    assert(trim_start(a, '/') == query);
    assert(trim_end(query, '/') == query);
    assert(b[0] == query[0]);
    assert(b.drop_last() =~= query);
    assert(trim_end(b, '/') == query);
    assert(query_parts(a) == split(query, '/'));
    assert(query_parts(b) == split(query, '/'));
    assert(split(query, '/') =~= split(query, '/').subrange(0, split(query, '/').len() as int));
}

/// The note on a file is the first under its path; without one under its path it
/// has none.
pub proof fn the_first_note_counts(notes: Seq<(String, CtxEntry)>, at: int, path: Text)
    requires
        0 <= at <= notes.len(),
        forall|i: int| 0 <= i < at ==> (#[trigger] notes[i]).0@ != path,
        at < notes.len() ==> notes[at].0@ == path,
    ensures
        note_of(notes, path) == if at < notes.len() {
            Some(notes[at].1)
        } else {
            None
        },
    decreases at,
{
    if at > 0 {
        let rest = notes.skip(1);
        assert(notes[0].0@ != path);
        assert forall|i: int| 0 <= i < at - 1 implies (#[trigger] rest[i]).0@ != path by {
            assert(rest[i] == notes[i + 1]);
        }
        if at < notes.len() {
            assert(rest[at - 1] == notes[at]);
        }
        the_first_note_counts(rest, at - 1, path);
    }
}

/// The output files are named after what stands in front of `.json`, or after the
/// whole of a path with another extension.
pub proof fn output_files_are_named_after_the_base(base: Text, ext: Text)
    requires
        base.len() > 0,
        base.last() != '/',
        !(base.last() == '.' && (base.len() == 1 || base[base.len() - 2] == '/')),
        ext.len() > 0,
        forall|k: int| 0 <= k < ext.len() ==> ext[k] != '/' && ext[k] != '.',
    ensures
        output_stem(base + seq!['.'] + ext) == if ext == seq!['j', 's', 'o', 'n'] {
            base
        } else {
            base + seq!['.'] + ext
        },
{
    reveal_strlit("json");
    assert("json"@ =~= seq!['j', 's', 'o', 'n']);
    appended_extension(base, ext);
}

} // verus!
