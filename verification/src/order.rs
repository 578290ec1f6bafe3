//! The order of strings, sets of strings that list themselves in it, and
//! sorting.
use vstd::prelude::*;
use vstd::std_specs::iter::IteratorSpec;

use crate::syntax::numbers;
use crate::text::{copy_texts, same, texts, Text};

verus! {

/// Whether `a` stands before `b`: at the first place where they differ `a`
/// has the smaller character, or `a` ends there.
pub open spec fn before(a: Text, b: Text) -> bool
    decreases a.len(),
{
    if b.len() == 0 {
        false
    } else if a.len() == 0 {
        true
    } else {
        a[0] < b[0] || (a[0] == b[0] && before(a.skip(1), b.skip(1)))
    }
}

/// No text stands before itself.
pub proof fn before_irreflexive(a: Text)
    ensures
        !before(a, a),
    decreases a.len(),
{
    if a.len() > 0 {
        before_irreflexive(a.skip(1));
    }
}

/// What stands before `b` stands before everything that `b` stands before.
pub proof fn before_transitive(a: Text, b: Text, c: Text)
    requires
        before(a, b),
        before(b, c),
    ensures
        before(a, c),
    decreases a.len(),
{
    if a.len() > 0 && a[0] == b[0] && b[0] == c[0] {
        before_transitive(a.skip(1), b.skip(1), c.skip(1));
    }
}

/// Of two different texts one stands before the other.
pub proof fn before_total(a: Text, b: Text)
    ensures
        before(a, b) || before(b, a) || a == b,
    decreases a.len(),
{
    if a.len() == 0 || b.len() == 0 {
        if a.len() == 0 && b.len() == 0 {
            assert(a =~= b);
        }
    } else if a[0] == b[0] {
        before_total(a.skip(1), b.skip(1));
        if a.skip(1) == b.skip(1) {
            assert(a.len() == a.skip(1).len() + 1);
            assert(b.len() == b.skip(1).len() + 1);
            assert(a =~= seq![a[0]] + a.skip(1));
            assert(b =~= seq![b[0]] + b.skip(1));
        }
    }
}

/// Where one text stands with respect to another.
#[derive(Clone, Copy, PartialEq, Eq, Structural)]
pub enum Place {
    Before,
    Same,
    After,
}

/// Where `a` stands with respect to `b`.
pub fn place(a: &str, b: &str) -> (r: Place)
    ensures
        r == Place::Before <==> before(a@, b@),
        r == Place::Same <==> a@ == b@,
        r == Place::After <==> before(b@, a@),
{
    let mut x = a.chars();
    let mut y = b.chars();
    let ghost mut k: int = 0;
    proof {
        assert(a@.skip(0) =~= a@);
        assert(b@.skip(0) =~= b@);
        if before(a@, b@) && before(b@, a@) {
            before_transitive(a@, b@, a@);
        }
        before_irreflexive(a@);
        before_irreflexive(b@);
        before_total(a@, b@);
    }
    loop
        invariant
            0 <= k <= a@.len(),
            k <= b@.len(),
            x.remaining() == a@.skip(k),
            y.remaining() == b@.skip(k),
            before(a@, b@) == before(a@.skip(k), b@.skip(k)),
            before(b@, a@) == before(b@.skip(k), a@.skip(k)),
            before(a@, b@) || before(b@, a@) || a@ == b@,
            !(before(a@, b@) && before(b@, a@)),
            !before(a@, a@),
        decreases a@.len() - k,
    {
        let p = x.next();
        let q = y.next();
        match (p, q) {
            (None, None) => {
                return Place::Same;
            },
            (None, Some(_)) => {
                return Place::Before;
            },
            (Some(_), None) => {
                return Place::After;
            },
            (Some(c), Some(d)) => {
                if c < d {
                    return Place::Before;
                }
                if d < c {
                    return Place::After;
                }
                proof {
                    assert(a@.skip(k).skip(1) =~= a@.skip(k + 1));
                    assert(b@.skip(k).skip(1) =~= b@.skip(k + 1));
                    k = k + 1;
                }
            },
        }
    }
}

/// Whether a list is in order and holds nothing twice.
pub open spec fn ascending(list: Seq<Text>) -> bool {
    forall|i: int, j: int|
        0 <= i < j < list.len() ==> before(#[trigger] list[i], #[trigger] list[j])
}

/// There is one way only to list a set in order.
pub proof fn ascending_unique(a: Seq<Text>, b: Seq<Text>)
    requires
        ascending(a),
        ascending(b),
        a.to_set() == b.to_set(),
    ensures
        a == b,
    decreases a.len(),
{
    if a.len() == 0 {
        if b.len() > 0 {
            assert(b.to_set().contains(b[0]));
            assert(a.contains(b[0]));
        }
        assert(a =~= b);
    } else if b.len() == 0 {
        assert(a.to_set().contains(a[0]));
        assert(b.contains(a[0]));
    } else {
        let x = a.last();
        let y = b.last();
        assert(a.to_set().contains(x));
        assert(b.to_set().contains(y));
        assert(b.contains(x));
        assert(a.contains(y));
        let i = choose|i: int| 0 <= i < b.len() && b[i] == x;
        let j = choose|j: int| 0 <= j < a.len() && a[j] == y;
        if x != y {
            assert(before(b[i], b[b.len() - 1]));
            assert(before(a[j], a[a.len() - 1]));
            before_transitive(x, y, x);
            before_irreflexive(x);
        }
        let p = a.drop_last();
        let q = b.drop_last();
        assert forall|t: Text| p.to_set().contains(t) <==> q.to_set().contains(t) by {
            before_irreflexive(x);
            if p.contains(t) {
                let m = choose|m: int| 0 <= m < p.len() && p[m] == t;
                assert(before(a[m], a[a.len() - 1]));
                assert(a.to_set().contains(a[m]));
                assert(b.contains(t));
                let n = choose|n: int| 0 <= n < b.len() && b[n] == t;
                assert(q[n] == t);
            }
            if q.contains(t) {
                let m = choose|m: int| 0 <= m < q.len() && q[m] == t;
                assert(before(b[m], b[b.len() - 1]));
                assert(b.to_set().contains(b[m]));
                assert(a.contains(t));
                let n = choose|n: int| 0 <= n < a.len() && a[n] == t;
                assert(p[n] == t);
            }
        }
        assert(p.to_set() =~= q.to_set());
        ascending_unique(p, q);
        assert(a =~= p.push(x));
        assert(b =~= q.push(y));
    }
}

/// Whether `list` lists the members of `set` in order, each once.
pub open spec fn lists(list: Seq<Text>, set: Set<Text>) -> bool {
    &&& ascending(list)
    &&& list.to_set() == set
}

/// The members of a finite set in order.
pub open spec fn in_order(set: Set<Text>) -> Seq<Text> {
    choose|list: Seq<Text>| lists(list, set)
}

/// A list that lists a set in order is the members of the set in order.
pub proof fn lemma_in_order(list: Seq<Text>, set: Set<Text>)
    requires
        lists(list, set),
    ensures
        in_order(set) == list,
{
    ascending_unique(in_order(set), list);
}

/// A text goes into an ordered list at one place.
proof fn lemma_insert_in_order(list: Seq<Text>, x: Text, k: int) -> (r: Seq<Text>)
    requires
        ascending(list),
        !list.contains(x),
        0 <= k <= list.len(),
        forall|i: int| 0 <= i < k ==> before(#[trigger] list[i], x),
    ensures
        lists(r, list.to_set().insert(x)),
    decreases list.len() - k,
{
    if k == list.len() || before(x, list[k]) {
        let r = list.insert(k, x);
        assert forall|i: int, j: int| 0 <= i < j < r.len() implies before(#[trigger] r[i], #[trigger] r[j]) by {
            if i == k {
                assert(r[j] == list[j - 1]);
                if j - 1 > k {
                    before_transitive(x, list[k], list[j - 1]);
                }
            } else if j == k {
                assert(r[i] == list[i]);
            } else {
                let a: int = if i < k {
                    i
                } else {
                    i - 1
                };
                let b: int = if j < k {
                    j
                } else {
                    j - 1
                };
                assert(r[i] == list[a] && r[j] == list[b]);
            }
        }
        assert forall|t: Text| r.to_set().contains(t) <==> list.to_set().insert(x).contains(t) by {
            if r.contains(t) {
                let i = choose|i: int| 0 <= i < r.len() && r[i] == t;
                if i < k {
                    assert(list[i] == t);
                } else if i > k {
                    assert(list[i - 1] == t);
                }
            }
            if list.contains(t) {
                let i = choose|i: int| 0 <= i < list.len() && list[i] == t;
                if i < k {
                    assert(r[i] == t);
                } else {
                    assert(r[i + 1] == t);
                }
            }
            assert(r[k] == x);
        }
        assert(r.to_set() =~= list.to_set().insert(x));
        r
    } else {
        before_total(list[k], x);
        assert(list.contains(list[k]));
        lemma_insert_in_order(list, x, k + 1)
    }
}

/// Every finite set can be listed in order.
pub proof fn lemma_in_order_lists(set: Set<Text>)
    requires
        set.finite(),
    ensures
        lists(in_order(set), set),
    decreases set.len(),
{
    if set.len() == 0 {
        let none = Seq::<Text>::empty();
        assert(none.to_set() =~= set);
        assert(lists(none, set));
    } else {
        let x = set.choose();
        let rest = set.remove(x);
        lemma_in_order_lists(rest);
        let list = in_order(rest);
        assert(!list.contains(x)) by {
            if list.contains(x) {
                assert(list.to_set().contains(x));
            }
        }
        let r = lemma_insert_in_order(list, x, 0);
        assert(rest.insert(x) =~= set);
        assert(lists(r, set));
    }
}

/// What is left of an ordered list is in order.
pub proof fn lemma_filter_ascending(list: Seq<Text>, pick: spec_fn(Text) -> bool)
    requires
        ascending(list),
    ensures
        ascending(list.filter(pick)),
    decreases list.len(),
{
    reveal(Seq::filter);
    if list.len() > 0 {
        let front = list.drop_last();
        assert forall|i: int, j: int| 0 <= i < j < front.len() implies before(
            #[trigger] front[i],
            #[trigger] front[j],
        ) by {
            assert(front[i] == list[i] && front[j] == list[j]);
        }
        lemma_filter_ascending(front, pick);
        let kept = front.filter(pick);
        let now = list.filter(pick);
        if pick(list.last()) {
            assert(now =~= kept.push(list.last()));
            assert forall|i: int, j: int| 0 <= i < j < now.len() implies before(
                #[trigger] now[i],
                #[trigger] now[j],
            ) by {
                if j == kept.len() {
                    front.lemma_filter_contains_rev(pick, kept[i]);
                    assert(kept.contains(kept[i]));
                    let x = choose|x: int| 0 <= x < front.len() && front[x] == kept[i];
                    assert(before(list[x], list[list.len() - 1]));
                } else {
                    assert(now[i] == kept[i] && now[j] == kept[j]);
                }
            }
        }
    }
}

/// A set of strings, kept in order.
pub struct TextSet {
    pub items: Vec<String>,
}

impl View for TextSet {
    type V = Set<Text>;

    open spec fn view(&self) -> Set<Text> {
        texts(self.items@).to_set()
    }
}

impl TextSet {
    /// The items stand in order, each once.
    pub open spec fn wf(&self) -> bool {
        ascending(texts(self.items@))
    }

    /// The set without members.
    pub fn new() -> (r: TextSet)
        ensures
            r.wf(),
            r@ == Set::<Text>::empty(),
    {
        let r = TextSet { items: Vec::new() };
        assert(r@ =~= Set::<Text>::empty());
        r
    }

    /// The first place whose item does not stand before `s`.
    pub fn position(&self, s: &str) -> (r: usize)
        requires
            self.wf(),
        ensures
            r <= self.items@.len(),
            forall|i: int| 0 <= i < r ==> before(#[trigger] texts(self.items@)[i], s@),
            forall|i: int| r <= i < self.items@.len() ==> !before(#[trigger] texts(self.items@)[i], s@),
    {
        let ghost all = texts(self.items@);
        let mut lo: usize = 0;
        let mut hi: usize = self.items.len();
        while lo < hi
            invariant
                lo <= hi <= self.items@.len(),
                all == texts(self.items@),
                ascending(all),
                forall|i: int| 0 <= i < lo ==> before(#[trigger] all[i], s@),
                forall|i: int| hi <= i < all.len() ==> !before(#[trigger] all[i], s@),
            decreases hi - lo,
        {
            let mid: usize = lo + (hi - lo) / 2;
            let at = place(self.items[mid].as_str(), s);
            assert(all[mid as int] == self.items@[mid as int]@);
            if at == Place::Before {
                assert forall|i: int| 0 <= i < mid + 1 implies before(#[trigger] all[i], s@) by {
                    if i < mid {
                        before_transitive(all[i], all[mid as int], s@);
                    }
                }
                lo = mid + 1;
            } else {
                assert forall|i: int| mid <= i < all.len() implies !before(
                    #[trigger] all[i],
                    s@,
                ) by {
                    if i > mid && before(all[i], s@) {
                        before_transitive(all[mid as int], all[i], s@);
                    }
                }
                hi = mid;
            }
        }
        lo
    }

    /// Whether `s` is a member.
    pub fn contains(&self, s: &str) -> (r: bool)
        requires
            self.wf(),
        ensures
            r == self@.contains(s@),
    {
        let p = self.position(s);
        let ghost all = texts(self.items@);
        if p < self.items.len() && same(self.items[p].as_str(), s) {
            assert(all[p as int] == s@);
            true
        } else {
            proof {
                before_irreflexive(s@);
                if all.contains(s@) {
                    let i = choose|i: int| 0 <= i < all.len() && all[i] == s@;
                    assert(i >= p);
                    if i > p {
                        assert(before(all[p as int], all[i]));
                    }
                }
            }
            false
        }
    }

    /// Puts `s` into the set.
    pub fn insert(&mut self, s: String)
        requires
            old(self).wf(),
        ensures
            final(self).wf(),
            final(self)@ == old(self)@.insert(s@),
    {
        let ghost all = texts(self.items@);
        let ghost t = s@;
        let p = self.position(s.as_str());
        if p < self.items.len() && same(self.items[p].as_str(), s.as_str()) {
            assert(all[p as int] == t);
            assert(all.to_set() =~= all.to_set().insert(t));
        } else {
            self.items.insert(p, s);
            let ghost now = texts(self.items@);
            proof {
                assert(now =~= all.insert(p as int, t));
                assert forall|i: int| p <= i < all.len() implies before(t, #[trigger] all[i]) by {
                    before_total(all[i], t);
                    if all[i] == t && i > p {
                        assert(before(all[p as int], all[i]));
                    }
                }
                assert forall|i: int, j: int| 0 <= i < j < now.len() implies before(
                    #[trigger] now[i],
                    #[trigger] now[j],
                ) by {
                    if i < p && j == p {
                        assert(now[i] == all[i]);
                    } else if i == p {
                        assert(now[j] == all[j - 1]);
                    } else if i < p && j > p {
                        assert(now[i] == all[i] && now[j] == all[j - 1]);
                    } else if i > p {
                        assert(now[i] == all[i - 1] && now[j] == all[j - 1]);
                    } else {
                        assert(now[i] == all[i] && now[j] == all[j]);
                    }
                }
                assert(now.to_set() =~= all.to_set().insert(t)) by {
                    all.insert_ensures(p as int, t);
                    assert forall|u: Text| now.contains(u) <==> (all.contains(u) || u == t) by {
                        if all.contains(u) {
                            let i = choose|i: int| 0 <= i < all.len() && all[i] == u;
                            if i < p {
                                assert(now[i] == u);
                            } else {
                                assert(now[i + 1] == u);
                            }
                        }
                        assert(now[p as int] == t);
                        if now.contains(u) {
                            let i = choose|i: int| 0 <= i < now.len() && now[i] == u;
                            if i < p {
                                assert(all[i] == u);
                            } else if i > p {
                                assert(all[i - 1] == u);
                            }
                        }
                    }
                }
            }
        }
    }

    /// The same set once more.
    pub fn copy(&self) -> (r: TextSet)
        requires
            self.wf(),
        ensures
            r.wf(),
            r@ == self@,
    {
        TextSet { items: copy_texts(&self.items) }
    }
}

/// Whether the item at `x` comes before the one at `y`: its key does, or their
/// keys are the same and it stands first.
pub open spec fn comes_first(keys: Seq<Text>, x: int, y: int) -> bool {
    before(keys[x], keys[y]) || (keys[x] == keys[y] && x < y)
}

/// Whether each place of a list comes before the next ones.
pub open spec fn sorted_places(keys: Seq<Text>, list: Seq<int>) -> bool {
    forall|i: int, j: int|
        0 <= i < j < list.len() ==> comes_first(keys, #[trigger] list[i], #[trigger] list[j])
}

/// Whether `list` holds the places of all keys in the order of the keys, those
/// with the same key in the order in which they stand.
pub open spec fn is_order(keys: Seq<Text>, list: Seq<int>) -> bool {
    &&& list.len() == keys.len()
    &&& forall|i: int| 0 <= i < list.len() ==> 0 <= #[trigger] list[i] < keys.len()
    &&& forall|k: int| 0 <= k < keys.len() ==> list.contains(k)
    &&& sorted_places(keys, list)
}

proof fn lemma_comes_first(keys: Seq<Text>, x: int, y: int, z: int)
    ensures
        comes_first(keys, x, y) && comes_first(keys, y, z) ==> comes_first(keys, x, z),
{
    if comes_first(keys, x, y) && comes_first(keys, y, z) {
        if before(keys[x], keys[y]) && before(keys[y], keys[z]) {
            before_transitive(keys[x], keys[y], keys[z]);
        }
    }
}

proof fn lemma_sorted(keys: Seq<Text>, list: Seq<usize>)
    requires
        sorted_places(keys, numbers(list)),
    ensures
        forall|n: int, m: int|
            0 <= n < m < list.len() ==> comes_first(keys, #[trigger] list[n] as int, #[trigger] list[m] as int),
{
    assert forall|n: int, m: int| 0 <= n < m < list.len() implies comes_first(
        keys,
        #[trigger] list[n] as int,
        #[trigger] list[m] as int,
    ) by {
        assert(numbers(list)[n] == list[n]);
        assert(numbers(list)[m] == list[m]);
    }
}

/// The places of two lists in one. All places of the first list are smaller
/// than those of the second.
fn merge(keys: &Vec<String>, a: &Vec<usize>, b: &Vec<usize>) -> (r: Vec<usize>)
    requires
        forall|i: int| 0 <= i < a@.len() ==> #[trigger] a@[i] < keys@.len(),
        forall|i: int| 0 <= i < b@.len() ==> #[trigger] b@[i] < keys@.len(),
        forall|i: int, j: int|
            0 <= i < a@.len() && 0 <= j < b@.len() ==> #[trigger] a@[i] < #[trigger] b@[j],
        sorted_places(texts(keys@), numbers(a@)),
        sorted_places(texts(keys@), numbers(b@)),
        a@.len() + b@.len() <= usize::MAX,
    ensures
        r@.len() == a@.len() + b@.len(),
        forall|i: int| 0 <= i < r@.len() ==> a@.contains(#[trigger] r@[i]) || b@.contains(r@[i]),
        forall|i: int| 0 <= i < a@.len() ==> r@.contains(#[trigger] a@[i]),
        forall|i: int| 0 <= i < b@.len() ==> r@.contains(#[trigger] b@[i]),
        sorted_places(texts(keys@), numbers(r@)),
{
    let ghost k = texts(keys@);
    let mut out: Vec<usize> = Vec::new();
    let mut i: usize = 0;
    let mut j: usize = 0;
    proof {
        lemma_sorted(k, a@);
        lemma_sorted(k, b@);
    }
    while i < a.len() || j < b.len()
        invariant
            k == texts(keys@),
            i <= a@.len(),
            j <= b@.len(),
            a@.len() + b@.len() <= usize::MAX,
            out@.len() == i + j,
            forall|n: int| 0 <= n < a@.len() ==> #[trigger] a@[n] < keys@.len(),
            forall|n: int| 0 <= n < b@.len() ==> #[trigger] b@[n] < keys@.len(),
            forall|n: int, m: int|
                0 <= n < a@.len() && 0 <= m < b@.len() ==> #[trigger] a@[n] < #[trigger] b@[m],
            forall|n: int, m: int|
                0 <= n < m < a@.len() ==> comes_first(k, #[trigger] a@[n] as int, #[trigger] a@[m] as int),
            forall|n: int, m: int|
                0 <= n < m < b@.len() ==> comes_first(k, #[trigger] b@[n] as int, #[trigger] b@[m] as int),
            forall|n: int, m: int|
                0 <= n < m < out@.len() ==> comes_first(
                    k,
                    #[trigger] out@[n] as int,
                    #[trigger] out@[m] as int,
                ),
            forall|n: int, m: int|
                0 <= n < out@.len() && i <= m < a@.len() ==> comes_first(
                    k,
                    #[trigger] out@[n] as int,
                    #[trigger] a@[m] as int,
                ),
            forall|n: int, m: int|
                0 <= n < out@.len() && j <= m < b@.len() ==> comes_first(
                    k,
                    #[trigger] out@[n] as int,
                    #[trigger] b@[m] as int,
                ),
            forall|n: int|
                0 <= n < out@.len() ==> a@.contains(#[trigger] out@[n]) || b@.contains(out@[n]),
            forall|n: int| 0 <= n < i ==> out@.contains(#[trigger] a@[n]),
            forall|n: int| 0 <= n < j ==> out@.contains(#[trigger] b@[n]),
        decreases a@.len() - i + b@.len() - j,
    {
        let ghost was = out@;
        let from_a = if i == a.len() {
            false
        } else if j == b.len() {
            true
        } else {
            match place(keys[a[i]].as_str(), keys[b[j]].as_str()) {
                Place::After => false,
                _ => true,
            }
        };
        let x = if from_a {
            a[i]
        } else {
            b[j]
        };
        proof {
            if i < a@.len() && j < b@.len() {
                before_total(k[a@[i as int] as int], k[b@[j as int] as int]);
            }
            if from_a {
                assert(a@.contains(x));
                assert forall|m: int| j <= m < b@.len() implies comes_first(
                    k,
                    x as int,
                    #[trigger] b@[m] as int,
                ) by {
                    assert(comes_first(k, x as int, b@[j as int] as int));
                    if m > j {
                        lemma_comes_first(k, x as int, b@[j as int] as int, b@[m] as int);
                    }
                }
            } else {
                assert(b@.contains(x));
                assert forall|m: int| i <= m < a@.len() implies comes_first(
                    k,
                    x as int,
                    #[trigger] a@[m] as int,
                ) by {
                    assert(comes_first(k, x as int, a@[i as int] as int));
                    if m > i {
                        lemma_comes_first(k, x as int, a@[i as int] as int, a@[m] as int);
                    }
                }
            }
        }
        out.push(x);
        if from_a {
            i = i + 1;
        } else {
            j = j + 1;
        }
        proof {
            assert(out@[was.len() as int] == x);
            assert forall|v: usize| was.contains(v) implies out@.contains(v) by {
                let n = choose|n: int| 0 <= n < was.len() && was[n] == v;
                assert(out@[n] == v);
            }
            assert forall|n: int| 0 <= n < out@.len() implies a@.contains(#[trigger] out@[n]) || b@.contains(
                out@[n],
            ) by {
                if n < was.len() {
                    assert(out@[n] == was[n]);
                }
            }
        }
    }
    out
}

/// The places from `lo` up to `hi` in the order of their keys.
fn sort_range(keys: &Vec<String>, lo: usize, hi: usize) -> (r: Vec<usize>)
    requires
        lo <= hi <= keys@.len(),
    ensures
        r@.len() == hi - lo,
        forall|i: int| 0 <= i < r@.len() ==> lo <= #[trigger] r@[i] < hi,
        forall|k: usize| lo <= k < hi ==> #[trigger] r@.contains(k),
        sorted_places(texts(keys@), numbers(r@)),
    decreases hi - lo,
{
    if hi - lo <= 1 {
        let mut out: Vec<usize> = Vec::new();
        if lo < hi {
            out.push(lo);
            assert(out@[0] == lo);
        }
        return out;
    }
    let mid: usize = lo + (hi - lo) / 2;
    let a = sort_range(keys, lo, mid);
    let b = sort_range(keys, mid, hi);
    let r = merge(keys, &a, &b);
    proof {
        assert forall|i: int| 0 <= i < r@.len() implies lo <= #[trigger] r@[i] < hi by {
            if a@.contains(r@[i]) {
                let n = choose|n: int| 0 <= n < a@.len() && a@[n] == r@[i];
                assert(lo <= a@[n] < mid);
            } else {
                let n = choose|n: int| 0 <= n < b@.len() && b@[n] == r@[i];
                assert(mid <= b@[n] < hi);
            }
        }
        assert forall|k: usize| lo <= k < hi implies #[trigger] r@.contains(k) by {
            if k < mid {
                assert(a@.contains(k));
                let n = choose|n: int| 0 <= n < a@.len() && a@[n] == k;
                assert(r@.contains(a@[n]));
            } else {
                assert(b@.contains(k));
                let n = choose|n: int| 0 <= n < b@.len() && b@[n] == k;
                assert(r@.contains(b@[n]));
            }
        }
    }
    r
}

/// The places of all keys in the order of the keys.
pub fn sort_places(keys: &Vec<String>) -> (r: Vec<usize>)
    ensures
        is_order(texts(keys@), numbers(r@)),
{
    let r = sort_range(keys, 0, keys.len());
    proof {
        let n = keys@.len();
        assert forall|k: int| 0 <= k < n implies numbers(r@).contains(k) by {
            assert(r@.contains(k as usize));
            let i = choose|i: int| 0 <= i < r@.len() && r@[i] == k as usize;
            assert(numbers(r@)[i] == k);
        }
    }
    r
}

/// There is one such order.
pub proof fn order_unique(keys: Seq<Text>, a: Seq<int>, b: Seq<int>)
    requires
        is_order(keys, a),
        is_order(keys, b),
    ensures
        a == b,
{
    assert forall|i: int| 0 <= i < a.len() implies a[i] == b[i] by {
        lemma_same_place(keys, a, b, i);
    }
    assert(a =~= b);
}

proof fn lemma_same_place(keys: Seq<Text>, a: Seq<int>, b: Seq<int>, i: int)
    requires
        is_order(keys, a),
        is_order(keys, b),
        0 <= i < a.len(),
    ensures
        a[i] == b[i],
    decreases i,
{
    assert forall|j: int| 0 <= j < i implies a[j] == b[j] by {
        lemma_same_place(keys, a, b, j);
    }
    if a[i] != b[i] {
        assert(b.contains(a[i]));
        let m = choose|m: int| 0 <= m < b.len() && b[m] == a[i];
        assert(a.contains(b[i]));
        let n = choose|n: int| 0 <= n < a.len() && a[n] == b[i];
        if m < i {
            assert(a[m] == b[m]);
            assert(comes_first(keys, a[m], a[i]));
            before_irreflexive(keys[a[i]]);
        } else if n < i {
            assert(a[n] == b[n]);
            assert(comes_first(keys, b[n], b[i]));
            before_irreflexive(keys[b[i]]);
        } else {
            assert(comes_first(keys, b[i], b[m]));
            assert(comes_first(keys, a[i], a[n]));
            let x = a[i];
            let y = b[i];
            lemma_comes_first(keys, x, y, x);
            before_irreflexive(keys[x]);
        }
    }
}

/// Of two texts with a common front, the one with the smaller character behind it
/// stands before the other; a text stands before those that go on behind it.
pub proof fn the_first_difference_decides(front: Text, x: char, a: Text, y: char, b: Text)
    ensures
        x != y ==> (before(front + seq![x] + a, front + seq![y] + b) <==> x < y),
        before(front, front + seq![y] + b),
    decreases front.len(),
{
    let s = front + seq![x] + a;
    let t = front + seq![y] + b;
    if front.len() == 0 {
        assert(s[0] == x);
        assert(t[0] == y);
    } else {
        let rest = front.skip(1);
        assert(s[0] == front[0]);
        assert(t[0] == front[0]);
        assert(s.skip(1) =~= rest + seq![x] + a);
        assert(t.skip(1) =~= rest + seq![y] + b);
        the_first_difference_decides(rest, x, a, y, b);
    }
}

} // verus!
