//! Effective dependencies: edges followed through barrel files to the files
//! behind them, by the name that each edge needs.
use vstd::prelude::*;
use vstd::hash_map::StringHashMap;
use vstd::hash_set::StringHashSet;

use crate::facts::{targets, DepRef, ImportWant, Target, Want, Wanted};
use crate::nodes::{lemma_places, lemma_table_at, nodes_wf, places_of, rels, table, wants, BuildNode, BuildView};
use crate::order::TextSet;
use crate::text::{same, texts, Text};

verus! {

/// Whether an edge asks for `want`. A list without names asks for everything.
pub open spec fn asks(wanted: Wanted, want: Want) -> bool {
    match wanted {
        Wanted::All => want == Want::All,
        Wanted::Named(names) => if names.len() == 0 {
            want == Want::All
        } else {
            match want {
                Want::All => false,
                Want::Name(n) => names.contains(n),
            }
        },
    }
}

/// Whether one of the edges of a file leads to `path` and asks it for `want`.
pub open spec fn seeded(edges: Seq<(Text, Wanted)>, path: Text, want: Want) -> bool {
    exists|i: int| 0 <= i < edges.len() && (#[trigger] edges[i]).0 == path && asks(edges[i].1, want)
}

/// Whether one of the edges of a file leads to `path`.
pub open spec fn leads_to(edges: Seq<(Text, Wanted)>, path: Text) -> bool {
    exists|i: int| 0 <= i < edges.len() && (#[trigger] edges[i]).0 == path
}

/// Whether a barrel that is asked for `want` passes the question on to `path`
/// as `next`: everything goes to all its targets; a name goes to its source, as
/// what it is there; to the open wildcard targets where it has none; and to
/// everything where there are none of these either.
pub open spec fn passes(barrel: BuildView, want: Want, path: Text, next: Want) -> bool {
    match want {
        Want::All => next == Want::All && leads_to(barrel.dependency_wants, path),
        Want::Name(n) => if barrel.name_sources.contains_key(n) {
            barrel.name_sources[n].0 == Target::Internal(path) && next == barrel.name_sources[n].1
        } else if barrel.wildcard_fallbacks.len() > 0 {
            barrel.wildcard_fallbacks.contains(Target::Internal(path)) && next == want
        } else {
            next == Want::All && leads_to(barrel.dependency_wants, path)
        },
    }
}

/// Whether asking `a` leads to asking `b`, on behalf of the file `rel`.
pub open spec fn step(nodes: Map<Text, BuildView>, rel: Text, a: (Text, Want), b: (Text, Want)) -> bool {
    &&& a.0 != rel
    &&& nodes.contains_key(a.0)
    &&& nodes[a.0].is_barrel
    &&& passes(nodes[a.0], a.1, b.0, b.1)
}

/// Whether `path` is a chain of questions that starts at an edge of `rel`.
pub open spec fn chain(nodes: Map<Text, BuildView>, rel: Text, path: Seq<(Text, Want)>) -> bool {
    &&& path.len() > 0
    &&& seeded(nodes[rel].dependency_wants, path[0].0, path[0].1)
    &&& forall|i: int| 0 <= i < path.len() - 1 ==> step(nodes, rel, #[trigger] path[i], path[i + 1])
}

/// Whether the edges of `rel` lead to asking `item`.
pub open spec fn asked(nodes: Map<Text, BuildView>, rel: Text, item: (Text, Want)) -> bool {
    exists|path: Seq<(Text, Want)>| #[trigger] chain(nodes, rel, path) && path.last() == item
}

/// The files, other than `rel` and other than barrels, that the edges of
/// `rel` lead to through barrels.
pub open spec fn effective(nodes: Map<Text, BuildView>, rel: Text) -> Set<Text> {
    Set::new(
        |p: Text|
            {
                &&& p != rel
                &&& nodes.contains_key(p)
                &&& !nodes[p].is_barrel
                &&& exists|w: Want| #[trigger] asked(nodes, rel, (p, w))
            },
    )
}

/// What an edge asks for is asked.
pub proof fn lemma_asked_seed(nodes: Map<Text, BuildView>, rel: Text, item: (Text, Want))
    requires
        seeded(nodes[rel].dependency_wants, item.0, item.1),
    ensures
        asked(nodes, rel, item),
{
    let path = seq![item];
    assert(chain(nodes, rel, path));
    assert(path.last() == item);
}

/// What a question leads to is asked.
pub proof fn lemma_asked_step(nodes: Map<Text, BuildView>, rel: Text, a: (Text, Want), b: (Text, Want))
    requires
        asked(nodes, rel, a),
        step(nodes, rel, a, b),
    ensures
        asked(nodes, rel, b),
{
    let p = choose|p: Seq<(Text, Want)>| #[trigger] chain(nodes, rel, p) && p.last() == a;
    let q = p.push(b);
    assert forall|i: int| 0 <= i < q.len() - 1 implies step(nodes, rel, #[trigger] q[i], q[i + 1]) by {
        if i < p.len() - 1 {
            assert(q[i] == p[i] && q[i + 1] == p[i + 1]);
        } else {
            assert(q[i] == a && q[i + 1] == b);
        }
    }
    assert(chain(nodes, rel, q));
    assert(q.last() == b);
}

/// A set of items that holds the seeds, and with an item that can be followed
/// all that it leads to, holds everything that is asked.
proof fn lemma_asked_closed(
    nodes: Map<Text, BuildView>,
    rel: Text,
    done: spec_fn((Text, Want)) -> bool,
    path: Seq<(Text, Want)>,
)
    requires
        chain(nodes, rel, path),
        forall|item: (Text, Want)|
            seeded(nodes[rel].dependency_wants, item.0, item.1) ==> #[trigger] done(item),
        forall|a: (Text, Want), b: (Text, Want)|
            done(a) && #[trigger] step(nodes, rel, a, b) ==> done(b),
    ensures
        done(path.last()),
    decreases path.len(),
{
    if path.len() == 1 {
        assert(done(path[0]));
    } else {
        let front = path.drop_last();
        assert forall|i: int| 0 <= i < front.len() - 1 implies step(
            nodes,
            rel,
            #[trigger] front[i],
            front[i + 1],
        ) by {
            assert(front[i] == path[i] && front[i + 1] == path[i + 1]);
        }
        assert(front[0] == path[0]);
        lemma_asked_closed(nodes, rel, done, front);
        let k = path.len() - 2;
        assert(front.last() == path[k]);
        assert(step(nodes, rel, path[k], path[k + 1]));
    }
}

/// The question that number `w` stands for: everything, or one of the names.
spec fn want_at(names: Seq<Text>, w: int) -> Want {
    if w == 0 {
        Want::All
    } else {
        Want::Name(names[w - 1])
    }
}

/// The sets of paths that each question has been put to.
spec fn visits(visited: Seq<StringHashSet>) -> Seq<Set<Text>> {
    visited.map_values(|s: StringHashSet| s@)
}

/// How many of the questions to `n` files have not been put yet.
spec fn unasked(visited: Seq<Set<Text>>, n: int) -> int
    decreases visited.len(),
{
    if visited.len() == 0 {
        0
    } else {
        unasked(visited.drop_last(), n) + n - visited.last().len()
    }
}

proof fn lemma_unasked_update(visited: Seq<Set<Text>>, n: int, w: int, s: Set<Text>)
    requires
        0 <= w < visited.len(),
    ensures
        unasked(visited.update(w, s), n) == unasked(visited, n) + visited[w].len() - s.len(),
    decreases visited.len(),
{
    let now = visited.update(w, s);
    if w == visited.len() - 1 {
        assert(now.drop_last() =~= visited.drop_last());
    } else {
        assert(now.drop_last() =~= visited.drop_last().update(w, s));
        lemma_unasked_update(visited.drop_last(), n, w, s);
    }
}

proof fn lemma_unasked_nonneg(visited: Seq<Set<Text>>, n: int)
    requires
        forall|w: int| 0 <= w < visited.len() ==> (#[trigger] visited[w]).len() <= n,
    ensures
        unasked(visited, n) >= 0,
    decreases visited.len(),
{
    if visited.len() > 0 {
        assert forall|w: int| 0 <= w < visited.drop_last().len() implies (#[trigger] visited.drop_last()[w]).len() <= n by {
            assert(visited.drop_last()[w] == visited[w]);
        }
        lemma_unasked_nonneg(visited.drop_last(), n);
        assert(visited[visited.len() - 1].len() <= n);
    }
}

/// Whether `(path, w)` is an item of the work list.
spec fn pending(work: Seq<(String, usize)>, names: Seq<Text>, item: (Text, Want)) -> bool {
    exists|i: int| 0 <= i < work.len() && (#[trigger] work[i]).0@ == item.0
        && want_at(names, work[i].1 as int) == item.1
}

/// Whether `item` has been put.
spec fn put_to(visited: Seq<Set<Text>>, names: Seq<Text>, item: (Text, Want)) -> bool {
    exists|w: int| 0 <= w < visited.len() && (#[trigger] visited[w]).contains(item.0)
        && want_at(names, w) == item.1
}

proof fn lemma_pending_push(work: Seq<(String, usize)>, names: Seq<Text>, e: (String, usize))
    ensures
        forall|item: (Text, Want)| #[trigger] pending(work, names, item) ==> pending(work.push(e), names, item),
        pending(work.push(e), names, (e.0@, want_at(names, e.1 as int))),
{
    let now = work.push(e);
    assert forall|item: (Text, Want)| #[trigger] pending(work, names, item) implies pending(now, names,
        item) by {
        let i = choose|i: int| 0 <= i < work.len() && (#[trigger] work[i]).0@ == item.0
            && want_at(names, work[i].1 as int) == item.1;
        assert(now[i] == work[i]);
    }
    assert(now[work.len() as int] == e);
}

/// Whether `now` is `was` with an entry for question `w` to each path of
/// `paths` behind it, and no other.
spec fn extends(
    was: Seq<(String, usize)>,
    now: Seq<(String, usize)>,
    w: usize,
    paths: spec_fn(Text) -> bool,
) -> bool {
    &&& was.len() <= now.len()
    &&& forall|i: int| 0 <= i < was.len() ==> #[trigger] now[i] == was[i]
    &&& forall|i: int| was.len() <= i < now.len() ==> (#[trigger] now[i]).1 == w && paths(now[i].0@)
    &&& forall|p: Text| #[trigger]
        paths(p) ==> exists|i: int| was.len() <= i < now.len() && (#[trigger] now[i]).0@ == p
}

proof fn lemma_extends(
    was: Seq<(String, usize)>,
    now: Seq<(String, usize)>,
    w: usize,
    paths: spec_fn(Text) -> bool,
    names: Seq<Text>,
    item: (Text, Want),
)
    requires
        extends(was, now, w, paths),
    ensures
        pending(now, names, item) <==> pending(was, names, item) || (paths(item.0) && item.1
            == want_at(names, w as int)),
{
    if pending(was, names, item) {
        let i = choose|i: int| 0 <= i < was.len() && (#[trigger] was[i]).0@ == item.0
            && want_at(names, was[i].1 as int) == item.1;
        assert(now[i] == was[i]);
    }
    if paths(item.0) && item.1 == want_at(names, w as int) {
        let i = choose|i: int| was.len() <= i < now.len() && (#[trigger] now[i]).0@ == item.0;
        assert(now[i].1 == w);
    }
    if pending(now, names, item) {
        let i = choose|i: int| 0 <= i < now.len() && (#[trigger] now[i]).0@ == item.0
            && want_at(names, now[i].1 as int) == item.1;
        if i < was.len() {
            assert(was[i] == now[i]);
        }
    }
}

/// Puts question `w` to every target of `edges`.
fn push_edges(work: &mut Vec<(String, usize)>, edges: &Vec<(String, ImportWant)>, w: usize)
    ensures
        extends(old(work)@, final(work)@, w, |p: Text| leads_to(wants(edges@), p)),
{
    let ghost was = work@;
    let ghost all = wants(edges@);
    let mut i: usize = 0;
    while i < edges.len()
        invariant
            i <= edges@.len(),
            all == wants(edges@),
            was == old(work)@,
            work@.len() == was.len() + i,
            forall|j: int| 0 <= j < was.len() ==> #[trigger] work@[j] == was[j],
            forall|j: int|
                was.len() <= j < work@.len() ==>
                    (#[trigger] work@[j]).1 == w && work@[j].0@ == all[j - was.len()].0,
        decreases edges@.len() - i,
    {
        work.push((edges[i].0.clone(), w));
        i = i + 1;
    }
    proof {
        let paths = |p: Text| leads_to(all, p);
        assert forall|j: int| was.len() <= j < work@.len() implies (#[trigger] work@[j]).1 == w && paths(
            work@[j].0@,
        ) by {
            assert(all[j - was.len()].0 == work@[j].0@);
        }
        assert forall|p: Text| #[trigger] paths(p) implies exists|j: int|
            was.len() <= j < work@.len() && (#[trigger] work@[j]).0@ == p by {
            let j = choose|j: int| 0 <= j < all.len() && (#[trigger] all[j]).0 == p;
            assert(work@[was.len() + j].0@ == p);
        }
        assert(paths =~= (|p: Text| leads_to(wants(edges@), p)));
    }
}

/// Puts question `w` to every file among `refs`.
fn push_files(work: &mut Vec<(String, usize)>, refs: &Vec<DepRef>, w: usize)
    ensures
        extends(
            old(work)@,
            final(work)@,
            w,
            |p: Text| targets(refs@).contains(Target::Internal(p)),
        ),
{
    let ghost was = work@;
    let ghost all = targets(refs@);
    let mut i: usize = 0;
    while i < refs.len()
        invariant
            i <= refs@.len(),
            all == targets(refs@),
            was == old(work)@,
            work@.len() >= was.len(),
            forall|j: int| 0 <= j < was.len() ==> #[trigger] work@[j] == was[j],
            forall|j: int|
                was.len() <= j < work@.len() ==> (#[trigger] work@[j]).1 == w && all.contains(
                    Target::Internal(work@[j].0@),
                ),
            forall|m: int|
                0 <= m < i && (#[trigger] all[m]) is Internal ==> exists|j: int|
                    was.len() <= j < work@.len() && (#[trigger] work@[j]).0@ == all[m]->Internal_0,
        decreases refs@.len() - i,
    {
        if let DepRef::Internal(p) = &refs[i] {
            let ghost mid = work@;
            assert(all[i as int] == Target::Internal(p@));
            work.push((p.clone(), w));
            assert(work@[mid.len() as int].0@ == p@);
            assert forall|m: int| 0 <= m < i && (#[trigger] all[m]) is Internal implies exists|j: int|
                was.len() <= j < work@.len() && (#[trigger] work@[j]).0@ == all[m]->Internal_0 by {
                let j = choose|j: int| was.len() <= j < mid.len()
                    && (#[trigger] mid[j]).0@ == all[m]->Internal_0;
                assert(work@[j] == mid[j]);
            }
        }
        i = i + 1;
    }
    proof {
        let paths = |p: Text| all.contains(Target::Internal(p));
        assert forall|p: Text| #[trigger] paths(p) implies exists|j: int|
            was.len() <= j < work@.len() && (#[trigger] work@[j]).0@ == p by {
            let m = choose|m: int| 0 <= m < all.len() && all[m] == Target::Internal(p);
            assert(all[m] is Internal);
        }
        assert(paths =~= (|p: Text| targets(refs@).contains(Target::Internal(p))));
    }
}

/// Whether the work list and the names hold what the first edges ask for.
spec fn seeds_ready(
    edges: Seq<(Text, Wanted)>,
    work: Seq<(String, usize)>,
    names: Seq<Text>,
) -> bool {
    &&& forall|j: int| 0 <= j < work.len() ==> (#[trigger] work[j]).1 <= names.len()
    &&& forall|item: (Text, Want)| #[trigger]
        pending(work, names, item) <==> seeded(edges, item.0, item.1)
}

proof fn lemma_pending_names(work: Seq<(String, usize)>, names: Seq<Text>, n: Text, item: (Text, Want))
    requires
        forall|j: int| 0 <= j < work.len() ==> (#[trigger] work[j]).1 <= names.len(),
    ensures
        pending(work, names.push(n), item) <==> pending(work, names, item),
{
    if pending(work, names, item) {
        let i = choose|i: int| 0 <= i < work.len() && (#[trigger] work[i]).0@ == item.0
            && want_at(names, work[i].1 as int) == item.1;
        assert(want_at(names.push(n), work[i].1 as int) == item.1);
    }
    if pending(work, names.push(n), item) {
        let i = choose|i: int| 0 <= i < work.len() && (#[trigger] work[i]).0@ == item.0
            && want_at(names.push(n), work[i].1 as int) == item.1;
        assert(want_at(names, work[i].1 as int) == item.1);
    }
}

proof fn lemma_pending_push_iff(work: Seq<(String, usize)>, names: Seq<Text>, e: (String, usize),
    item: (Text, Want))
    ensures
        pending(work.push(e), names, item)
            <==> pending(work, names, item) || item == (e.0@, want_at(names, e.1 as int)),
{
    lemma_pending_push(work, names, e);
    let now = work.push(e);
    if pending(now, names, item) {
        let i = choose|i: int| 0 <= i < now.len() && (#[trigger] now[i]).0@ == item.0
            && want_at(names, now[i].1 as int) == item.1;
        if i < work.len() {
            assert(work[i] == now[i]);
        }
    }
}

proof fn lemma_seeded_push(edges: Seq<(Text, Wanted)>, e: (Text, Wanted), item: (Text, Want))
    ensures
        seeded(edges.push(e), item.0, item.1)
            <==> seeded(edges, item.0, item.1) || (e.0 == item.0 && asks(e.1, item.1)),
{
    let now = edges.push(e);
    if seeded(edges, item.0, item.1) {
        let i = choose|i: int| 0 <= i < edges.len() && (#[trigger] edges[i]).0 == item.0
            && asks(edges[i].1, item.1);
        assert(now[i] == edges[i]);
    }
    assert(now[edges.len() as int] == e);
    if seeded(now, item.0, item.1) {
        let i = choose|i: int| 0 <= i < now.len() && (#[trigger] now[i]).0 == item.0 && asks(now[i].1, item.1);
        if i < edges.len() {
            assert(edges[i] == now[i]);
        }
    }
}

/// The questions that the edges of a file ask.
fn seed(edges: &Vec<(String, ImportWant)>) -> (r: (Vec<(String, usize)>, Vec<String>))
    ensures
        seeds_ready(wants(edges@), r.0@, texts(r.1@)),
{
    let ghost all = wants(edges@);
    let mut work: Vec<(String, usize)> = Vec::new();
    let mut names: Vec<String> = Vec::new();
    let mut i: usize = 0;
    while i < edges.len()
        invariant
            i <= edges@.len(),
            all == wants(edges@),
            seeds_ready(all.take(i as int), work@, texts(names@)),
        decreases edges@.len() - i,
    {
        let ghost front = all.take(i as int);
        let ghost e = all[i as int];
        assert(all.take(i + 1) =~= front.push(e));
        let ghost was = work@;
        let ghost was_names = texts(names@);
        let everything = match &edges[i].1 {
            ImportWant::All => true,
            ImportWant::Named(list) => list.len() == 0,
        };
        if everything {
            work.push((edges[i].0.clone(), 0usize));
            proof {
                assert forall|item: (Text, Want)| #[trigger]
                    pending(work@, was_names, item) <==> seeded(all.take(i + 1), item.0, item.1) by {
                    lemma_pending_push_iff(was, was_names, work@.last(), item);
                    lemma_seeded_push(front, e, item);
                    assert(pending(was, was_names, item) <==> seeded(front, item.0, item.1));
                }
            }
        } else if let ImportWant::Named(list) = &edges[i].1 {
            let ghost wanted = texts(list@);
            let mut j: usize = 0;
            while j < list.len()
                invariant
                    j <= list@.len(),
                    i < edges@.len(),
                    wanted == texts(list@),
                    e == all[i as int],
                    all == wants(edges@),
                    forall|m: int| 0 <= m < work@.len() ==> (#[trigger] work@[m]).1 <= texts(names@).len(),
                    forall|item: (Text, Want)| #[trigger]
                        pending(work@, texts(names@), item) <==> seeded(front, item.0, item.1) || (item.0 == e.0
                            && item.1 is Name && wanted.take(j as int).contains(item.1->Name_0)),
                decreases list@.len() - j,
            {
                let ghost mid = work@;
                let ghost mid_names = texts(names@);
                let ghost n = wanted[j as int];
                names.push(list[j].clone());
                assert(texts(names@) =~= mid_names.push(n));
                let w: usize = names.len();
                work.push((edges[i].0.clone(), w));
                proof {
                    let seen = wanted.take(j as int);
                    let more = wanted.take(j + 1);
                    assert(more =~= seen.push(n));
                    assert forall|item: (Text, Want)| #[trigger]
                        pending(work@, texts(names@), item) <==> seeded(front, item.0, item.1) || (item.0 == e.0
                            && item.1 is Name && more.contains(item.1->Name_0)) by {
                        lemma_pending_names(mid, mid_names, n, item);
                        lemma_pending_push_iff(mid, texts(names@), work@.last(), item);
                        assert(pending(mid, mid_names, item)
                            <==> seeded(front, item.0, item.1) || (item.0 == e.0
                            && item.1 is Name && seen.contains(item.1->Name_0)));
                        assert(want_at(texts(names@), w as int) == Want::Name(n));
                        vstd::seq_lib::lemma_seq_contains_after_push(seen, n, item.1->Name_0);
                    }
                }
                j = j + 1;
            }
            proof {
                assert(wanted.take(wanted.len() as int) =~= wanted);
                assert forall|item: (Text, Want)| #[trigger]
                    pending(work@, texts(names@), item) <==> seeded(all.take(i + 1), item.0, item.1) by {
                    lemma_seeded_push(front, e, item);
                }
            }
        }
        i = i + 1;
    }
    assert(all.take(all.len() as int) =~= all);
    (work, names)
}

/// Whether `item` needs no more work: it has been put, waits in the work
/// list, or is no question to another file of the graph.
spec fn settled(
    nodes: Map<Text, BuildView>,
    rel: Text,
    work: Seq<(String, usize)>,
    visited: Seq<Set<Text>>,
    names: Seq<Text>,
    item: (Text, Want),
) -> bool {
    ||| item.0 == rel
    ||| !nodes.contains_key(item.0)
    ||| put_to(visited, names, item)
    ||| pending(work, names, item)
}

/// What holds between two questions.
spec fn in_progress(
    nodes: Map<Text, BuildView>,
    rel: Text,
    work: Seq<(String, usize)>,
    visited: Seq<Set<Text>>,
    names: Seq<Text>,
    found: Set<Text>,
) -> bool {
    &&& visited.len() == names.len() + 1
    &&& forall|j: int| 0 <= j < work.len() ==> (#[trigger] work[j]).1 < visited.len()
    &&& forall|w: int| 0 <= w < visited.len() ==> (#[trigger] visited[w]).subset_of(nodes.dom())
    &&& forall|item: (Text, Want)| #[trigger]
        pending(work, names, item) ==> asked(nodes, rel, item)
    &&& forall|item: (Text, Want)| #[trigger]
        put_to(visited, names, item) ==> asked(nodes, rel, item) && item.0 != rel
    &&& forall|item: (Text, Want)|
        seeded(nodes[rel].dependency_wants, item.0, item.1) ==>
            #[trigger] settled(nodes, rel, work, visited, names, item)
    &&& forall|a: (Text, Want), b: (Text, Want)|
        put_to(visited, names, a) && #[trigger] step(nodes, rel, a, b) ==>
            settled(nodes, rel, work, visited, names, b)
    &&& forall|p: Text| #[trigger]
        found.contains(p) <==> nodes.contains_key(p) && !nodes[p].is_barrel && exists|w: int|
            0 <= w < visited.len() && (#[trigger] visited[w]).contains(p)
}

proof fn lemma_finished(
    nodes: Map<Text, BuildView>,
    rel: Text,
    work: Seq<(String, usize)>,
    visited: Seq<Set<Text>>,
    names: Seq<Text>,
    found: Set<Text>,
)
    requires
        in_progress(nodes, rel, work, visited, names, found),
        work.len() == 0,
    ensures
        found == effective(nodes, rel),
{
    let done = |item: (Text, Want)| settled(nodes, rel, work, visited, names, item);
    assert forall|p: Text| found.contains(p) <==> effective(nodes, rel).contains(p) by {
        if found.contains(p) {
            let w = choose|w: int| 0 <= w < visited.len() && (#[trigger] visited[w]).contains(p);
            let item = (p, want_at(names, w));
            assert(put_to(visited, names, item));
            assert(asked(nodes, rel, item));
        }
        if effective(nodes, rel).contains(p) {
            let want = choose|want: Want| #[trigger] asked(nodes, rel, (p, want));
            let path = choose|path: Seq<(Text, Want)>| #[trigger] chain(nodes, rel, path)
                && path.last() == (p, want);
            assert forall|a: (Text, Want), b: (Text, Want)|
                done(a) && #[trigger] step(nodes, rel, a, b) implies done(b) by {
                assert(!pending(work, names, a));
                assert(put_to(visited, names, a));
            }
            lemma_asked_closed(nodes, rel, done, path);
            assert(settled(nodes, rel, work, visited, names, (p, want)));
            assert(!pending(work, names, (p, want)));
            let w = choose|w: int| 0 <= w < visited.len() && (#[trigger] visited[w]).contains(p)
                && want_at(names, w) == want;
            assert(visited[w].contains(p));
        }
    }
    assert(found =~= effective(nodes, rel));
}

/// Taking an item that is settled otherwise off the work list.
proof fn lemma_skip(
    nodes: Map<Text, BuildView>,
    rel: Text,
    work: Seq<(String, usize)>,
    visited: Seq<Set<Text>>,
    names: Seq<Text>,
    found: Set<Text>,
)
    requires
        in_progress(nodes, rel, work, visited, names, found),
        work.len() > 0,
        work.last().0@ == rel || !nodes.contains_key(work.last().0@)
            || visited[work.last().1 as int].contains(work.last().0@),
    ensures
        in_progress(nodes, rel, work.drop_last(), visited, names, found),
{
    let rest = work.drop_last();
    let e = work.last();
    let top = (e.0@, want_at(names, e.1 as int));
    assert(work =~= rest.push(e));
    assert forall|item: (Text, Want)| #[trigger]
        settled(nodes, rel, work, visited, names, item) implies settled(nodes, rel, rest, visited, names,
            item) by {
        lemma_pending_push_iff(rest, names, e, item);
        if item == top && visited[e.1 as int].contains(e.0@) {
            assert(put_to(visited, names, item));
        }
    }
    assert forall|item: (Text, Want)| #[trigger] pending(rest, names, item) implies asked(nodes, rel, item) by {
        lemma_pending_push_iff(rest, names, e, item);
        assert(pending(work, names, item));
    }
    assert forall|item: (Text, Want)|
        seeded(nodes[rel].dependency_wants, item.0, item.1) implies #[trigger] settled(nodes, rel, rest,
            visited, names, item) by {
        assert(settled(nodes, rel, work, visited, names, item));
    }
    assert forall|a: (Text, Want), b: (Text, Want)|
        put_to(visited, names, a)
            && #[trigger] step(nodes, rel, a, b) implies settled(nodes, rel, rest, visited, names, b) by {
        assert(settled(nodes, rel, work, visited, names, b));
    }
}

/// Putting the question on top of the work list, and adding what it leads to.
proof fn lemma_visit(
    nodes: Map<Text, BuildView>,
    rel: Text,
    work: Seq<(String, usize)>,
    visited: Seq<Set<Text>>,
    names: Seq<Text>,
    found: Set<Text>,
    now_work: Seq<(String, usize)>,
    now_found: Set<Text>,
    w: usize,
    paths: spec_fn(Text) -> bool,
)
    requires
        in_progress(nodes, rel, work, visited, names, found),
        work.len() > 0,
        work.last().0@ != rel,
        nodes.contains_key(work.last().0@),
        w < visited.len(),
        extends(work.drop_last(), now_work, w, paths),
        now_found == (if nodes[work.last().0@].is_barrel {
            found
        } else {
            found.insert(work.last().0@)
        }),
        forall|b: (Text, Want)|
            #[trigger] step(nodes, rel, (work.last().0@, want_at(names, work.last().1 as int)),
                b) <==> paths(b.0) && b.1
                == want_at(names, w as int),
    ensures
        in_progress(
            nodes,
            rel,
            now_work,
            visited.update(
                work.last().1 as int,
                visited[work.last().1 as int].insert(work.last().0@),
            ),
            names,
            now_found,
        ),
{
    let rest = work.drop_last();
    let e = work.last();
    let top = (e.0@, want_at(names, e.1 as int));
    let v = e.1 as int;
    let now = visited.update(v, visited[v].insert(e.0@));
    assert(work[work.len() - 1] == e);
    assert(work =~= rest.push(e));
    lemma_pending_push_iff(rest, names, e, top);
    assert(pending(work, names, top));
    assert(asked(nodes, rel, top));
    assert forall|item: (Text, Want)| #[trigger]
        put_to(now, names, item) <==> put_to(visited, names, item) || item == top by {
        if put_to(visited, names, item) {
            let x = choose|x: int| 0 <= x < visited.len()
                && (#[trigger] visited[x]).contains(item.0) && want_at(names, x) == item.1;
            assert(now[x].contains(item.0));
        }
        assert(now[v].contains(e.0@));
        if put_to(now, names, item) {
            let x = choose|x: int| 0 <= x < now.len() && (#[trigger] now[x]).contains(item.0)
                && want_at(names, x) == item.1;
            if x != v || item.0 != e.0@ {
                assert(visited[x].contains(item.0));
            }
        }
    }
    assert forall|item: (Text, Want)| #[trigger]
        settled(nodes, rel, work, visited, names, item) implies settled(nodes, rel, now_work, now, names,
            item) by {
        lemma_pending_push_iff(rest, names, e, item);
        lemma_extends(rest, now_work, w, paths, names, item);
        assert(put_to(now, names, item) <==> put_to(visited, names, item) || item == top);
    }
    assert forall|item: (Text, Want)| #[trigger] pending(now_work, names, item) implies asked(nodes, rel,
        item) by {
        lemma_pending_push_iff(rest, names, e, item);
        lemma_extends(rest, now_work, w, paths, names, item);
        if pending(rest, names, item) {
            assert(pending(work, names, item));
        } else {
            assert(step(nodes, rel, top, item));
            lemma_asked_step(nodes, rel, top, item);
        }
    }
    assert forall|j: int| 0 <= j < now_work.len() implies (#[trigger] now_work[j]).1 < now.len() by {
        if j < rest.len() {
            assert(now_work[j] == rest[j]);
            assert(rest[j] == work[j]);
        }
    }
    assert forall|x: int| 0 <= x < now.len() implies (#[trigger] now[x]).subset_of(nodes.dom()) by {
        assert(visited[x].subset_of(nodes.dom()));
    }
    assert forall|item: (Text, Want)|
        seeded(nodes[rel].dependency_wants, item.0, item.1) implies #[trigger] settled(nodes, rel,
            now_work, now, names, item) by {
        assert(settled(nodes, rel, work, visited, names, item));
    }
    assert forall|a: (Text, Want), b: (Text, Want)|
        put_to(now, names, a)
            && #[trigger] step(nodes, rel, a, b) implies settled(nodes, rel, now_work, now, names, b) by {
        assert(put_to(now, names, a) <==> put_to(visited, names, a) || a == top);
        if a == top {
            lemma_extends(rest, now_work, w, paths, names, b);
        } else {
            assert(settled(nodes, rel, work, visited, names, b));
        }
    }
    assert forall|p: Text| #[trigger]
        now_found.contains(p) <==> nodes.contains_key(p) && !nodes[p].is_barrel && exists|x: int|
            0 <= x < now.len() && (#[trigger] now[x]).contains(p) by {
        assert(found.contains(p) <==> nodes.contains_key(p) && !nodes[p].is_barrel && exists|x: int|
            0 <= x < visited.len() && (#[trigger] visited[x]).contains(p));
        if exists|x: int| 0 <= x < visited.len() && (#[trigger] visited[x]).contains(p) {
            let x = choose|x: int| 0 <= x < visited.len() && (#[trigger] visited[x]).contains(p);
            assert(now[x].contains(p));
        }
        if exists|x: int| 0 <= x < now.len() && (#[trigger] now[x]).contains(p) {
            let x = choose|x: int| 0 <= x < now.len() && (#[trigger] now[x]).contains(p);
            if p != e.0@ {
                assert(visited[x].contains(p));
            }
        }
        assert(now[v].contains(e.0@));
    }
}

/// One more question that has been put to no file yet.
proof fn lemma_grow(
    nodes: Map<Text, BuildView>,
    rel: Text,
    work: Seq<(String, usize)>,
    visited: Seq<Set<Text>>,
    names: Seq<Text>,
    found: Set<Text>,
    n: Text,
)
    requires
        in_progress(nodes, rel, work, visited, names, found),
    ensures
        in_progress(nodes, rel, work, visited.push(Set::empty()), names.push(n), found),
{
    let now = visited.push(Set::empty());
    let more = names.push(n);
    assert forall|item: (Text, Want)| #[trigger]
        pending(work, more, item) <==> pending(work, names, item) by {
        lemma_pending_names(work, names, n, item);
    }
    assert forall|item: (Text, Want)| #[trigger]
        put_to(now, more, item) <==> put_to(visited, names, item) by {
        if put_to(visited, names, item) {
            let x = choose|x: int| 0 <= x < visited.len()
                && (#[trigger] visited[x]).contains(item.0) && want_at(names, x) == item.1;
            assert(now[x].contains(item.0));
            assert(want_at(more, x) == item.1);
        }
        if put_to(now, more, item) {
            let x = choose|x: int| 0 <= x < now.len() && (#[trigger] now[x]).contains(item.0)
                && want_at(more, x) == item.1;
            assert(visited[x].contains(item.0));
            assert(want_at(names, x) == item.1);
        }
    }
    assert forall|item: (Text, Want)| #[trigger]
        settled(nodes, rel, work, now, more, item) <==> settled(nodes, rel, work, visited, names, item) by {
        assert(pending(work, more, item) <==> pending(work, names, item));
        assert(put_to(now, more, item) <==> put_to(visited, names, item));
    }
    assert forall|item: (Text, Want)|
        seeded(nodes[rel].dependency_wants, item.0, item.1) implies #[trigger] settled(nodes, rel, work,
            now, more, item) by {
        assert(settled(nodes, rel, work, visited, names, item));
    }
    assert forall|a: (Text, Want), b: (Text, Want)|
        put_to(now, more, a)
            && #[trigger] step(nodes, rel, a, b) implies settled(nodes, rel, work, now, more, b) by {
        assert(put_to(visited, names, a));
        assert(settled(nodes, rel, work, visited, names, b));
    }
    assert forall|p: Text| #[trigger]
        found.contains(p) <==> nodes.contains_key(p) && !nodes[p].is_barrel && exists|x: int|
            0 <= x < now.len() && (#[trigger] now[x]).contains(p) by {
        if exists|x: int| 0 <= x < visited.len() && (#[trigger] visited[x]).contains(p) {
            let x = choose|x: int| 0 <= x < visited.len() && (#[trigger] visited[x]).contains(p);
            assert(now[x].contains(p));
        }
        if exists|x: int| 0 <= x < now.len() && (#[trigger] now[x]).contains(p) {
            let x = choose|x: int| 0 <= x < now.len() && (#[trigger] now[x]).contains(p);
            assert(visited[x].contains(p));
        }
    }
}

/// The names that the re-exported names of a node have where they come from.
spec fn names_behind(node: BuildNode) -> Seq<Text> {
    texts(node.name_sources.names@).map_values(
        |k: Text|
            match node.name_sources@[k].1 {
                Want::Name(n) => n,
                Want::All => Seq::empty(),
            },
    )
}

/// The names that the re-exported names of some nodes have where they come
/// from.
spec fn all_names_behind(nodes: Seq<BuildNode>) -> Seq<Text>
    decreases nodes.len(),
{
    if nodes.len() == 0 {
        Seq::empty()
    } else {
        all_names_behind(nodes.drop_last()) + names_behind(nodes.last())
    }
}

proof fn lemma_all_names_behind(nodes: Seq<BuildNode>, i: int, n: Text)
    requires
        0 <= i < nodes.len(),
        names_behind(nodes[i]).contains(n),
    ensures
        all_names_behind(nodes).contains(n),
    decreases nodes.len(),
{
    let front = all_names_behind(nodes.drop_last());
    let back = names_behind(nodes.last());
    if i == nodes.len() - 1 {
        let j = choose|j: int| 0 <= j < back.len() && back[j] == n;
        assert((front + back)[front.len() + j] == n);
    } else {
        lemma_all_names_behind(nodes.drop_last(), i, n);
        let j = choose|j: int| 0 <= j < front.len() && front[j] == n;
        assert((front + back)[j] == n);
    }
}

/// How many of the names behind some nodes are not among `names`.
spec fn unnamed(nodes: Seq<BuildNode>, names: Seq<Text>) -> nat {
    all_names_behind(nodes).to_set().difference(names.to_set()).len()
}

/// A name behind a node that joins the names leaves fewer to join.
proof fn lemma_unnamed(nodes: Seq<BuildNode>, names: Seq<Text>, i: int, k: Text, n: Text)
    requires
        0 <= i < nodes.len(),
        nodes[i].name_sources.wf(),
        nodes[i].name_sources.by_name@.contains_key(k),
        nodes[i].name_sources@[k].1 == Want::Name(n),
        !names.contains(n),
    ensures
        unnamed(nodes, names.push(n)) < unnamed(nodes, names),
{
    let keys = texts(nodes[i].name_sources.names@);
    let j = choose|j: int| 0 <= j < keys.len() && keys[j] == k;
    assert(names_behind(nodes[i])[j] == n);
    lemma_all_names_behind(nodes, i, n);
    let all = all_names_behind(nodes).to_set();
    vstd::seq_lib::seq_to_set_is_finite(all_names_behind(nodes));
    let was = all.difference(names.to_set());
    let now = all.difference(names.push(n).to_set());
    names.lemma_push_to_set_commute(n);
    assert(was.contains(n));
    assert(now =~= was.remove(n));
}

/// Whether `numbers` knows a number of every name, and nothing else.
spec fn numbers_of(names: Seq<Text>, numbers: Map<Text, usize>) -> bool {
    &&& forall|n: Text| #[trigger]
        numbers.contains_key(n) ==> 1 <= numbers[n] <= names.len() && names[numbers[n] - 1] == n
    &&& forall|i: int| 0 <= i < names.len() ==> numbers.contains_key(#[trigger] names[i])
}

/// A number of every name.
fn number_names(names: &Vec<String>) -> (r: StringHashMap<usize>)
    ensures
        numbers_of(texts(names@), r@),
{
    let ghost all = texts(names@);
    let mut r: StringHashMap<usize> = StringHashMap::new();
    let mut i: usize = 0;
    assert(all.take(0) =~= Seq::<Text>::empty());
    while i < names.len()
        invariant
            i <= names@.len(),
            all == texts(names@),
            numbers_of(all.take(i as int), r@),
        decreases names@.len() - i,
    {
        let ghost front = all.take(i as int);
        let ghost was = r@;
        let n = names[i].clone();
        i = i + 1;
        r.insert(n, i);
        proof {
            lemma_numbers_push(front, was, all[i - 1], i);
            assert(all.take(i as int) =~= front.push(all[i - 1]));
        }
    }
    assert(all.take(all.len() as int) =~= all);
    r
}

proof fn lemma_numbers_push(names: Seq<Text>, numbers: Map<Text, usize>, n: Text, w: usize)
    requires
        numbers_of(names, numbers),
        w == names.len() + 1,
    ensures
        numbers_of(names.push(n), numbers.insert(n, w)),
{
    let more = names.push(n);
    let now = numbers.insert(n, w);
    assert forall|m: Text| #[trigger] now.contains_key(m) implies 1 <= now[m] <= more.len()
        && more[now[m] - 1] == m by {
        if m != n {
            assert(numbers.contains_key(m));
        }
    }
    assert forall|i: int| 0 <= i < more.len() implies now.contains_key(#[trigger] more[i]) by {
        if i < names.len() {
            assert(more[i] == names[i]);
        }
    }
}

/// The effective dependencies of the node at `at`.
pub fn effective_of(nodes: &Vec<BuildNode>, places: &StringHashMap<usize>, at: usize) -> (r: TextSet)
    requires
        nodes_wf(nodes@),
        places_of(nodes@, places@),
        at < nodes@.len(),
    ensures
        r.wf(),
        r@ == effective(table(nodes@), nodes@[at as int].rel@),
{
    let ghost tab = table(nodes@);
    let ghost rel = nodes@[at as int].rel@;
    let ghost size = tab.dom().len() as int;
    proof {
        lemma_table_at(nodes@, at as int);
        assert(tab.dom() =~= rels(nodes@).to_set());
        vstd::seq_lib::seq_to_set_is_finite(rels(nodes@));
    }
    let (mut work, mut names) = seed(&nodes[at].dependency_wants);
    let mut numbers = number_names(&names);
    let mut visited: Vec<StringHashSet> = Vec::new();
    let mut i: usize = 0;
    while i < names.len()
        invariant
            i <= names@.len(),
            visited@.len() == i,
            forall|w: int| 0 <= w < i ==> (#[trigger] visited@[w])@ == Set::<Text>::empty(),
        decreases names@.len() - i,
    {
        visited.push(StringHashSet::new());
        i = i + 1;
    }
    visited.push(StringHashSet::new());
    let mut found = TextSet::new();
    proof {
        let seen = visits(visited@);
        let asks_for = texts(names@);
        assert forall|item: (Text, Want)| !#[trigger] put_to(seen, asks_for, item) by {}
        assert forall|item: (Text, Want)| #[trigger] pending(work@, asks_for, item) implies asked(tab,
            rel, item) by {
            lemma_asked_seed(tab, rel, item);
        }
        assert forall|item: (Text, Want)|
            seeded(tab[rel].dependency_wants, item.0, item.1) implies #[trigger] settled(tab, rel, work@,
                seen, asks_for, item) by {
            assert(pending(work@, asks_for, item));
        }
        assert(in_progress(tab, rel, work@, seen, asks_for, found@));
    }
    while work.len() > 0
        invariant
            at < nodes@.len(),
            nodes_wf(nodes@),
            places_of(nodes@, places@),
            tab == table(nodes@),
            rel == nodes@[at as int].rel@,
            size == tab.dom().len(),
            tab.dom().finite(),
            found.wf(),
            numbers_of(texts(names@), numbers@),
            in_progress(tab, rel, work@, visits(visited@), texts(names@), found@),
        decreases
            unnamed(nodes@, texts(names@)),
            unasked(visits(visited@), size),
            work@.len(),
    {
        let ghost asks_for = texts(names@);
        let ghost was = work@;
        let ghost was_found = found@;
        let ghost seen = visits(visited@);
        proof {
            assert forall|w: int| 0 <= w < seen.len() implies (#[trigger] seen[w]).len() <= size by {
                vstd::set_lib::lemma_len_subset(seen[w], tab.dom());
            }
            lemma_unasked_nonneg(seen, size);
        }
        let e = work.pop().unwrap();
        assert(work@ =~= was.drop_last());
        assert(e == was.last());
        assert(was[was.len() - 1] == e);
        let path = e.0;
        let w = e.1;
        let ghost v = w as int;
        assert(seen[v] == visited@[v]@);
        proof {
            lemma_places(nodes@, places@, path@);
        }
        if same(path.as_str(), nodes[at].rel.as_str()) || !places.contains_key(path.as_str())
            || visited[w].contains(path.as_str()) {
            proof {
                lemma_skip(tab, rel, was, seen, asks_for, was_found);
            }
            continue;
        }
        let here: usize = match places.get(path.as_str()) {
            Some(q) => *q,
            None => 0,
        };
        visited[w].insert(path.clone());
        let ghost now = seen.update(v, seen[v].insert(path@));
        proof {
            assert(visits(visited@) =~= now);
            lemma_unasked_update(seen, size, v, seen[v].insert(path@));
            vstd::set_lib::lemma_len_subset(seen[v], tab.dom());
            vstd::set_lib::lemma_set_subset_finite(tab.dom(), seen[v]);
            assert forall|x: int| 0 <= x < now.len() implies (#[trigger] now[x]).len() <= size by {
                assert(seen[x].subset_of(tab.dom()));
                assert(now[x].subset_of(tab.dom()));
                vstd::set_lib::lemma_len_subset(now[x], tab.dom());
            }
            lemma_unasked_nonneg(now, size);
        }
        let ghost barrel = nodes@[here as int]@;
        assert(tab[path@] == barrel);
        let ghost top = (path@, want_at(asks_for, v));
        let ghost rest = work@;
        let node = &nodes[here];
        if !node.is_barrel {
            found.insert(path);
            proof {
                let none = |p: Text| false;
                assert(extends(rest, work@, 0, none));
                lemma_visit(tab, rel, was, seen, asks_for, was_found, work@, found@, 0, none);
            }
        } else if w == 0 {
            push_edges(&mut work, &node.dependency_wants, 0);
            proof {
                lemma_visit(tab, rel, was, seen, asks_for, was_found, work@, found@, 0,
                    |p: Text| leads_to(barrel.dependency_wants, p));
            }
        } else {
            let name = &names[w - 1];
            let ghost asked_for = name@;
            assert(asks_for[v - 1] == asked_for);
            match node.name_sources.by_name.get(name.as_str()) {
                Some(source) => {
                    assert(barrel.name_sources[asked_for] == source@);
                    match &source.target {
                        DepRef::Internal(p) => {
                            let ghost only = |q: Text| q == p@;
                            let known: Option<usize> = match &source.name {
                                None => Some(0),
                                Some(n) => match numbers.get(n.as_str()) {
                                    Some(x) => Some(*x),
                                    None => None,
                                },
                            };
                            match known {
                                Some(x) => {
                                    work.push((p.clone(), x));
                                    proof {
                                        assert(want_at(asks_for, x as int) == (source@).1);
                                        assert(work@[rest.len() as int].0@ == p@);
                                        assert(extends(rest, work@, x, only));
                                        lemma_visit(tab, rel, was, seen, asks_for, was_found, work@, found@,
                                            x, only);
                                    }
                                },
                                None => if let Some(n) = &source.name {
                                    let ghost more = asks_for.push(n@);
                                    proof {
                                        assert(!asks_for.contains(n@));
                                        lemma_unnamed(nodes@, asks_for, here as int, asked_for, n@);
                                        lemma_grow(tab, rel, was, seen, asks_for, was_found, n@);
                                    }
                                    names.push(n.clone());
                                    assert(texts(names@) =~= more);
                                    let x: usize = names.len();
                                    proof {
                                        lemma_numbers_push(asks_for, numbers@, n@, x);
                                    }
                                    numbers.insert(n.clone(), x);
                                    visited.push(StringHashSet::new());
                                    work.push((p.clone(), x));
                                    proof {
                                        let fresh = seen.push(Set::empty());
                                        assert(visits(visited@) =~= fresh.update(v, fresh[v].insert(path@)));
                                        assert(want_at(more, v) == want_at(asks_for, v));
                                        assert(want_at(more, x as int) == Want::Name(n@));
                                        assert(work@[rest.len() as int].0@ == p@);
                                        assert(extends(rest, work@, x, only));
                                        lemma_visit(tab, rel, was, fresh, more, was_found, work@, found@,
                                            x, only);
                                    }
                                },
                            }
                        },
                        DepRef::External(_) => {
                            proof {
                                let none = |q: Text| false;
                                assert(extends(rest, work@, w, none));
                                lemma_visit(tab, rel, was, seen, asks_for, was_found, work@, found@, w, none);
                            }
                        },
                    }
                },
                None => {
                    if node.wildcard_fallbacks.len() > 0 {
                        push_files(&mut work, &node.wildcard_fallbacks, w);
                        proof {
                            lemma_visit(tab, rel, was, seen, asks_for, was_found, work@, found@, w,
                                |p: Text| barrel.wildcard_fallbacks.contains(Target::Internal(p)));
                        }
                    } else {
                        push_edges(&mut work, &node.dependency_wants, 0);
                        proof {
                            lemma_visit(tab, rel, was, seen, asks_for, was_found, work@, found@, 0,
                                |p: Text| leads_to(barrel.dependency_wants, p));
                        }
                    }
                },
            }
        }
    }
    proof {
        lemma_finished(tab, rel, work@, visits(visited@), texts(names@), found@);
    }
    found
}

} // verus!
