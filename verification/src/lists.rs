//! What lists of what many things come to hold.
use vstd::prelude::*;

verus! {

/// What one member of a list comes to is among what all come to.
pub proof fn lemma_in_flat_map<A, B>(list: Seq<A>, f: spec_fn(A) -> Seq<B>, i: int, b: B)
    requires
        0 <= i < list.len(),
        f(list[i]).contains(b),
    ensures
        list.flat_map(f).contains(b),
    decreases list.len(),
{
    let front = list.drop_last();
    list.lemma_flat_map_take_append(f, list.len() - 1);
    assert(list.take(list.len() as int) =~= list);
    assert(list.take(list.len() - 1) =~= front);
    let head = front.flat_map(f);
    let tail = f(list.last());
    if i < front.len() {
        lemma_in_flat_map(front, f, i, b);
        let k = choose|k: int| 0 <= k < head.len() && head[k] == b;
        assert((head + tail)[k] == b);
    } else {
        let k = choose|k: int| 0 <= k < tail.len() && tail[k] == b;
        assert((head + tail)[head.len() + k] == b);
    }
}

/// What all members of a list come to is what one of them comes to.
pub proof fn lemma_from_flat_map<A, B>(list: Seq<A>, f: spec_fn(A) -> Seq<B>, b: B)
    requires
        list.flat_map(f).contains(b),
    ensures
        exists|i: int| 0 <= i < list.len() && f(#[trigger] list[i]).contains(b),
    decreases list.len(),
{
    if list.len() == 0 {
        reveal(Seq::flat_map);
        assert(list =~= Seq::<A>::empty());
        assert(list.flat_map(f) =~= Seq::<B>::empty());
    } else {
        let front = list.drop_last();
        list.lemma_flat_map_take_append(f, list.len() - 1);
        assert(list.take(list.len() as int) =~= list);
        assert(list.take(list.len() - 1) =~= front);
        let head = front.flat_map(f);
        let tail = f(list.last());
        let k = choose|k: int| 0 <= k < (head + tail).len() && (head + tail)[k] == b;
        if k < head.len() {
            assert(head[k] == b);
            lemma_from_flat_map(front, f, b);
            let i = choose|i: int| 0 <= i < front.len() && f(#[trigger] front[i]).contains(b);
            assert(f(list[i]).contains(b));
        } else {
            assert(tail[k - head.len()] == b);
            assert(f(list[list.len() - 1]).contains(b));
        }
    }
}

/// What is made of one member of a list is among what is made of all.
pub proof fn lemma_in_filter_map<A, B>(list: Seq<A>, f: spec_fn(A) -> Option<B>, i: int)
    requires
        0 <= i < list.len(),
        f(list[i]) is Some,
    ensures
        list.filter_map(f).contains(f(list[i])->0),
    decreases list.len(),
{
    let front = list.drop_last();
    let all = list.filter_map(f);
    list.lemma_filter_map_take_succ(f, list.len() - 1);
    assert(list.take(list.len() as int) =~= list);
    assert(list.take(list.len() - 1) =~= front);
    if i < front.len() {
        lemma_in_filter_map(front, f, i);
        let head = front.filter_map(f);
        let k = choose|k: int| 0 <= k < head.len() && head[k] == f(list[i])->0;
        assert(all[k] == f(list[i])->0);
    } else {
        assert(all[all.len() - 1] == f(list[i])->0);
    }
}

/// What is made of all members of a list is made of one of them.
pub proof fn lemma_from_filter_map<A, B>(list: Seq<A>, f: spec_fn(A) -> Option<B>, b: B)
    requires
        list.filter_map(f).contains(b),
    ensures
        exists|i: int| 0 <= i < list.len() && f(#[trigger] list[i]) == Some(b),
    decreases list.len(),
{
    if list.len() == 0 {
        reveal(Seq::filter_map);
        assert(list.filter_map(f).len() == 0);
    } else {
        let front = list.drop_last();
        let all = list.filter_map(f);
        list.lemma_filter_map_take_succ(f, list.len() - 1);
        assert(list.take(list.len() as int) =~= list);
        assert(list.take(list.len() - 1) =~= front);
        let head = front.filter_map(f);
        let k = choose|k: int| 0 <= k < all.len() && all[k] == b;
        if k < head.len() {
            assert(head[k] == b);
            lemma_from_filter_map(front, f, b);
            let i = choose|i: int| 0 <= i < front.len() && f(#[trigger] front[i]) == Some(b);
            assert(f(list[i]) == Some(b));
        } else {
            assert(f(list[list.len() - 1]) == Some(b));
        }
    }
}

/// What is in one list or in another is in both together.
pub proof fn lemma_more<A>(a: Seq<A>, b: Seq<A>)
    ensures
        forall|x: A| #[trigger] a.contains(x) ==> (a + b).contains(x),
        forall|x: A| #[trigger] b.contains(x) ==> (a + b).contains(x),
        forall|x: A| #[trigger] (a + b).contains(x) ==> a.contains(x) || b.contains(x),
{
    assert forall|x: A| #[trigger] a.contains(x) implies (a + b).contains(x) by {
        let i = choose|i: int| 0 <= i < a.len() && a[i] == x;
        assert((a + b)[i] == x);
    }
    assert forall|x: A| #[trigger] b.contains(x) implies (a + b).contains(x) by {
        let i = choose|i: int| 0 <= i < b.len() && b[i] == x;
        assert((a + b)[a.len() + i] == x);
    }
    assert forall|x: A| #[trigger] (a + b).contains(x) implies a.contains(x) || b.contains(x) by {
        let i = choose|i: int| 0 <= i < (a + b).len() && (a + b)[i] == x;
        if i < a.len() {
            assert(a[i] == x);
        } else {
            assert(b[i - a.len()] == x);
        }
    }
}

/// What is in a list is in it with one more.
pub proof fn lemma_one_more<A>(a: Seq<A>, x: A)
    ensures
        a.push(x).contains(x),
        forall|y: A| #[trigger] a.contains(y) ==> a.push(x).contains(y),
        forall|y: A| #[trigger] a.push(x).contains(y) ==> a.contains(y) || y == x,
{
    lemma_more(a, seq![x]);
    assert(a.push(x) =~= a + seq![x]);
    assert(seq![x][0] == x);
    assert(seq![x].contains(x));
}

} // verus!
