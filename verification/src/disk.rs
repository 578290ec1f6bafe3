//! What is known of the file system: the paths that were found to be files,
//! with the canonical form of each.
use vstd::prelude::*;
use vstd::hash_map::StringHashMap;

use crate::path::{strip_prefix, stripped};
use crate::text::{optional_text, replace_char, texts, with_char_replaced, Text};

verus! {

/// Answers of the file system. A path that was never recorded is no file.
pub struct Disk {
    pub answers: StringHashMap<Option<String>>,
}

impl View for Disk {
    type V = Map<Text, Option<Text>>;

    /// The paths that are files, with their canonical paths where these could
    /// be had.
    open spec fn view(&self) -> Map<Text, Option<Text>> {
        self.answers@.map_values(|c: Option<String>| optional_text(c))
    }
}

/// The first of `candidates` that is a file.
pub open spec fn first_file(disk: Map<Text, Option<Text>>, candidates: Seq<Text>) -> Option<Text>
    decreases candidates.len(),
{
    if candidates.len() == 0 {
        None
    } else {
        match first_file(disk, candidates.drop_last()) {
            Some(p) => Some(p),
            None => if disk.contains_key(candidates.last()) {
                Some(candidates.last())
            } else {
                None
            },
        }
    }
}

/// Looking through one list and then another is looking through both.
pub proof fn first_file_of_both(disk: Map<Text, Option<Text>>, a: Seq<Text>, b: Seq<Text>)
    ensures
        first_file(disk, a + b) == match first_file(disk, a) {
            Some(p) => Some(p),
            None => first_file(disk, b),
        },
    decreases b.len(),
{
    if b.len() == 0 {
        assert(a + b =~= a);
    } else {
        assert((a + b).drop_last() =~= a + b.drop_last());
        assert((a + b).last() == b.last());
        first_file_of_both(disk, a, b.drop_last());
    }
}

/// What is found is a file and one of the candidates, and nothing is found
/// only where no candidate is a file.
pub proof fn first_file_is_candidate(disk: Map<Text, Option<Text>>, candidates: Seq<Text>)
    ensures
        first_file(disk, candidates) is Some ==> disk.contains_key(
            first_file(disk, candidates)->0,
        ) && candidates.contains(first_file(disk, candidates)->0),
        first_file(disk, candidates) is None ==> forall|i: int|
            0 <= i < candidates.len() ==> !disk.contains_key(#[trigger] candidates[i]),
    decreases candidates.len(),
{
    if candidates.len() > 0 {
        let front = candidates.drop_last();
        first_file_is_candidate(disk, front);
        match first_file(disk, front) {
            Some(p) => {
                let i = choose|i: int| 0 <= i < front.len() && front[i] == p;
                assert(candidates[i] == p);
            },
            None => {
                assert forall|i: int| 0 <= i < candidates.len() - 1 implies !disk.contains_key(
                    #[trigger] candidates[i],
                ) by {
                    assert(front[i] == candidates[i]);
                }
                assert(candidates[candidates.len() - 1] == candidates.last());
            },
        }
    }
}

/// Whether two disks say the same of a file.
pub open spec fn agree(a: Map<Text, Option<Text>>, b: Map<Text, Option<Text>>, path: Text) -> bool {
    a.contains_key(path) == b.contains_key(path) && (a.contains_key(path) ==> a[path] == b[path])
}

/// Whether two disks say the same of all of some files.
pub open spec fn agree_on(a: Map<Text, Option<Text>>, b: Map<Text, Option<Text>>, paths: Seq<Text>) -> bool {
    forall|k: int| 0 <= k < paths.len() ==> agree(a, b, #[trigger] paths[k])
}

/// Disks that agree on what all elements map to agree on what each maps to.
pub proof fn lemma_agree_parts<A>(
    a: Map<Text, Option<Text>>,
    b: Map<Text, Option<Text>>,
    list: Seq<A>,
    f: spec_fn(A) -> Seq<Text>,
)
    requires
        agree_on(a, b, list.flat_map(f)),
    ensures
        forall|k: int| 0 <= k < list.len() ==> agree_on(a, b, f(#[trigger] list[k])),
    decreases list.len(),
{
    if list.len() > 0 {
        let front = list.drop_last();
        list.lemma_flat_map_take_append(f, list.len() - 1);
        assert(list.take(list.len() as int) =~= list);
        assert(list.take(list.len() - 1) =~= front);
        let head = front.flat_map(f);
        let tail = f(list.last());
        lemma_agree_both(a, b, head, tail);
        lemma_agree_parts(a, b, front, f);
        assert forall|k: int| 0 <= k < list.len() implies agree_on(a, b, f(#[trigger] list[k])) by {
            if k < front.len() {
                assert(front[k] == list[k]);
            }
        }
    }
}

/// Disks that agree on two lists in one agree on each.
pub proof fn lemma_agree_both(a: Map<Text, Option<Text>>, b: Map<Text, Option<Text>>, x: Seq<Text>, y: Seq<Text>)
    requires
        agree_on(a, b, x + y),
    ensures
        agree_on(a, b, x),
        agree_on(a, b, y),
{
    assert forall|k: int| 0 <= k < x.len() implies agree(a, b, #[trigger] x[k]) by {
        assert((x + y)[k] == x[k]);
    }
    assert forall|k: int| 0 <= k < y.len() implies agree(a, b, #[trigger] y[k]) by {
        assert((x + y)[x.len() + k] == y[k]);
    }
}

/// What is found depends on the candidates' own answers alone.
pub proof fn first_file_asks_candidates_only(
    a: Map<Text, Option<Text>>,
    b: Map<Text, Option<Text>>,
    candidates: Seq<Text>,
)
    requires
        agree_on(a, b, candidates),
    ensures
        first_file(a, candidates) == first_file(b, candidates),
    decreases candidates.len(),
{
    if candidates.len() > 0 {
        let front = candidates.drop_last();
        assert forall|i: int| 0 <= i < front.len() implies agree(a, b, #[trigger] front[i]) by {
            assert(front[i] == candidates[i]);
        }
        first_file_asks_candidates_only(a, b, front);
        assert(agree(a, b, candidates[candidates.len() - 1]));
    }
}

/// The path of a file below the root, with slashes between its parts; none
/// where the file does not lie below the root.
pub open spec fn relative(root: Text, path: Text) -> Option<Text> {
    match strip_prefix(path, root) {
        Some(rest) => Some(replace_char(rest, '\\', '/')),
        None => None,
    }
}

/// The path of a file below the root, by its canonical path.
pub open spec fn local_file(disk: Map<Text, Option<Text>>, root: Text, path: Text) -> Option<Text> {
    if disk.contains_key(path) {
        match disk[path] {
            Some(canonical) => relative(root, canonical),
            None => None,
        }
    } else {
        None
    }
}

/// The path of a file below the root.
pub fn relative_path(root: &str, path: &str) -> (r: Option<String>)
    ensures
        optional_text(r) == relative(root@, path@),
{
    match stripped(path, root) {
        Some(rest) => Some(with_char_replaced(rest.as_str(), '\\', '/')),
        None => None,
    }
}

impl Disk {
    /// Nothing is known yet.
    pub fn new() -> (r: Disk)
        ensures
            r@ == Map::<Text, Option<Text>>::empty(),
    {
        let r = Disk { answers: StringHashMap::new() };
        assert(r@ =~= Map::<Text, Option<Text>>::empty());
        r
    }

    /// Records that `path` is a file.
    pub fn record(&mut self, path: String, canonical: Option<String>)
        ensures
            final(self)@ == old(self)@.insert(path@, optional_text(canonical)),
    {
        self.answers.insert(path, canonical);
        assert(self@ =~= old(self)@.insert(path@, optional_text(canonical)));
    }

    /// Whether `path` is a file.
    pub fn is_file(&self, path: &str) -> (r: bool)
        ensures
            r == self@.contains_key(path@),
    {
        self.answers.contains_key(path)
    }

    /// The canonical path of a file.
    pub fn canonical(&self, path: &str) -> (r: Option<String>)
        ensures
            optional_text(r) == (if self@.contains_key(path@) {
                self@[path@]
            } else {
                None
            }),
    {
        match self.answers.get(path) {
            Some(Some(p)) => Some(p.clone()),
            _ => None,
        }
    }

    /// The path of a file below the root, by its canonical path.
    pub fn local(&self, root: &str, path: &str) -> (r: Option<String>)
        ensures
            optional_text(r) == local_file(self@, root@, path@),
    {
        match self.canonical(path) {
            Some(canonical) => relative_path(root, canonical.as_str()),
            None => None,
        }
    }

    /// The first of `candidates` that is a file.
    pub fn find(&self, candidates: &Vec<String>) -> (r: Option<String>)
        ensures
            optional_text(r) == first_file(self@, texts(candidates@)),
    {
        let ghost all = texts(candidates@);
        let mut i: usize = 0;
        while i < candidates.len()
            invariant
                i <= candidates@.len(),
                all == texts(candidates@),
                first_file(self@, all.take(i as int)) is None,
            decreases candidates@.len() - i,
        {
            assert(all.take(i + 1).drop_last() =~= all.take(i as int));
            assert(all.take(i + 1).last() == all[i as int]);
            if self.is_file(candidates[i].as_str()) {
                proof {
                    lemma_first_file_front(self@, all, i + 1);
                }
                return Some(candidates[i].clone());
            }
            i = i + 1;
        }
        assert(all.take(all.len() as int) =~= all);
        None
    }
}

/// What is found among the first candidates is found among all.
proof fn lemma_first_file_front(disk: Map<Text, Option<Text>>, candidates: Seq<Text>, k: int)
    requires
        0 <= k <= candidates.len(),
        first_file(disk, candidates.take(k)) is Some,
    ensures
        first_file(disk, candidates) == first_file(disk, candidates.take(k)),
{
    assert(candidates =~= candidates.take(k) + candidates.skip(k));
    first_file_of_both(disk, candidates.take(k), candidates.skip(k));
}

} // verus!
