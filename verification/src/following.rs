//! How imports are followed through barrel files.
use vstd::prelude::*;

use crate::effective::{asked, asks, chain, effective, leads_to, lemma_asked_seed, lemma_asked_step, seeded, step};
use crate::facts::{Target, Want, Wanted};
use crate::nodes::BuildView;
use crate::text::Text;

verus! {

/// An edge asks the file that it leads to for each of the names that it needs,
/// and for everything where it cannot be narrowed or lists no names.
pub proof fn edges_ask_for_what_they_need(nodes: Map<Text, BuildView>, rel: Text, i: int, name: Text)
    requires
        0 <= i < nodes[rel].dependency_wants.len(),
    ensures
        ({
            let edge = nodes[rel].dependency_wants[i];
            match edge.1 {
                Wanted::All => asked(nodes, rel, (edge.0, Want::All)),
                Wanted::Named(names) => {
                    &&& names.len() == 0 ==> asked(nodes, rel, (edge.0, Want::All))
                    &&& names.contains(name) ==> asked(nodes, rel, (edge.0, Want::Name(name)))
                },
            }
        }),
{
    let edges = nodes[rel].dependency_wants;
    let edge = edges[i];
    match edge.1 {
        Wanted::All => {
            assert(asks(edge.1, Want::All));
            assert(seeded(edges, edge.0, Want::All));
            lemma_asked_seed(nodes, rel, (edge.0, Want::All));
        },
        Wanted::Named(names) => {
            if names.len() == 0 {
                assert(asks(edge.1, Want::All));
                assert(seeded(edges, edge.0, Want::All));
                lemma_asked_seed(nodes, rel, (edge.0, Want::All));
            }
            if names.contains(name) {
                assert(asks(edge.1, Want::Name(name)));
                assert(seeded(edges, edge.0, Want::Name(name)));
                lemma_asked_seed(nodes, rel, (edge.0, Want::Name(name)));
            }
        },
    }
}

/// Whether a file passes on what it is asked for on behalf of `rel`: it is a
/// barrel, and another file.
pub open spec fn passes_on(nodes: Map<Text, BuildView>, rel: Text, file: Text) -> bool {
    file != rel && nodes.contains_key(file) && nodes[file].is_barrel
}

/// A barrel that is asked for a name whose source it knows asks the source for
/// what the name is there.
pub proof fn a_known_name_is_asked_of_its_source(
    nodes: Map<Text, BuildView>,
    rel: Text,
    barrel: Text,
    name: Text,
    file: Text,
    there: Want,
)
    requires
        asked(nodes, rel, (barrel, Want::Name(name))),
        passes_on(nodes, rel, barrel),
        nodes[barrel].name_sources.contains_key(name),
        nodes[barrel].name_sources[name] == (Target::Internal(file), there),
    ensures
        asked(nodes, rel, (file, there)),
{
    assert(step(nodes, rel, (barrel, Want::Name(name)), (file, there)));
    lemma_asked_step(nodes, rel, (barrel, Want::Name(name)), (file, there));
}

/// A barrel that is asked for a name without a known source asks every file that
/// it re-exports without names for it, as long as there are any such targets.
pub proof fn an_unknown_name_is_asked_of_every_open_target(
    nodes: Map<Text, BuildView>,
    rel: Text,
    barrel: Text,
    name: Text,
    k: int,
    file: Text,
)
    requires
        asked(nodes, rel, (barrel, Want::Name(name))),
        passes_on(nodes, rel, barrel),
        !nodes[barrel].name_sources.contains_key(name),
        0 <= k < nodes[barrel].wildcard_fallbacks.len(),
        nodes[barrel].wildcard_fallbacks[k] == Target::Internal(file),
    ensures
        asked(nodes, rel, (file, Want::Name(name))),
        nodes.contains_key(file) && !nodes[file].is_barrel && file != rel ==> effective(nodes, rel).contains(file),
{
    let open = nodes[barrel].wildcard_fallbacks;
    assert(open.contains(open[k]));
    assert(step(nodes, rel, (barrel, Want::Name(name)), (file, Want::Name(name))));
    lemma_asked_step(nodes, rel, (barrel, Want::Name(name)), (file, Want::Name(name)));
}

/// A barrel that is asked for everything, or for a name that cannot come from
/// anywhere known, asks every file that it leads to for everything.
pub proof fn everything_is_asked_of_every_target(
    nodes: Map<Text, BuildView>,
    rel: Text,
    barrel: Text,
    want: Want,
    k: int,
)
    requires
        asked(nodes, rel, (barrel, want)),
        passes_on(nodes, rel, barrel),
        match want {
            Want::All => true,
            Want::Name(name) => !nodes[barrel].name_sources.contains_key(name)
                && nodes[barrel].wildcard_fallbacks.len() == 0,
        },
        0 <= k < nodes[barrel].dependency_wants.len(),
    ensures
        asked(nodes, rel, (nodes[barrel].dependency_wants[k].0, Want::All)),
{
    let file = nodes[barrel].dependency_wants[k].0;
    assert(leads_to(nodes[barrel].dependency_wants, file));
    assert(step(nodes, rel, (barrel, want), (file, Want::All)));
    lemma_asked_step(nodes, rel, (barrel, want), (file, Want::All));
}

/// Every file that is asked for anything is an effective dependency, unless it is
/// a barrel, has no node, or is the importing file.
pub proof fn what_is_asked_is_depended_on(nodes: Map<Text, BuildView>, rel: Text, file: Text, want: Want)
    requires
        asked(nodes, rel, (file, want)),
        nodes.contains_key(file),
        !nodes[file].is_barrel,
        file != rel,
    ensures
        effective(nodes, rel).contains(file),
{
}

/// Whether a set of questions has those that the edges of `rel` ask.
pub open spec fn has_first_questions(
    nodes: Map<Text, BuildView>,
    rel: Text,
    reach: spec_fn((Text, Want)) -> bool,
) -> bool {
    forall|i: int|
        0 <= i < nodes[rel].dependency_wants.len() ==> match (#[trigger] nodes[rel].dependency_wants[i]).1 {
            Wanted::All => reach((nodes[rel].dependency_wants[i].0, Want::All)),
            Wanted::Named(names) => {
                &&& names.len() == 0 ==> reach((nodes[rel].dependency_wants[i].0, Want::All))
                &&& forall|name: Text| #[trigger]
                    names.contains(name) ==> reach((nodes[rel].dependency_wants[i].0, Want::Name(name)))
            },
        }
}

/// Whether a set of questions has, with a question to a barrel, those that the
/// barrel asks in turn.
pub open spec fn has_further_questions(
    nodes: Map<Text, BuildView>,
    rel: Text,
    reach: spec_fn((Text, Want)) -> bool,
) -> bool {
    &&& forall|barrel: Text, name: Text| #[trigger]
        reach((barrel, Want::Name(name))) && passes_on(nodes, rel, barrel)
            && nodes[barrel].name_sources.contains_key(name) ==> match nodes[barrel].name_sources[name].0 {
            Target::Internal(file) => reach((file, nodes[barrel].name_sources[name].1)),
            Target::External(_) => true,
        }
    &&& forall|barrel: Text, name: Text, k: int|
        #![trigger reach((barrel, Want::Name(name))), nodes[barrel].wildcard_fallbacks[k]]
        reach((barrel, Want::Name(name))) && passes_on(nodes, rel, barrel)
            && !nodes[barrel].name_sources.contains_key(name) && 0 <= k < nodes[barrel].wildcard_fallbacks.len()
            ==> match nodes[barrel].wildcard_fallbacks[k] {
            Target::Internal(file) => reach((file, Want::Name(name))),
            Target::External(_) => true,
        }
    &&& forall|barrel: Text, want: Want, k: int|
        #![trigger reach((barrel, want)), nodes[barrel].dependency_wants[k]]
        reach((barrel, want)) && passes_on(nodes, rel, barrel) && (match want {
            Want::All => true,
            Want::Name(name) => !nodes[barrel].name_sources.contains_key(name)
                && nodes[barrel].wildcard_fallbacks.len() == 0,
        }) && 0 <= k < nodes[barrel].dependency_wants.len() ==> reach(
            (nodes[barrel].dependency_wants[k].0, Want::All),
        )
}

/// Nothing else is followed: any set of questions that has what the edges of a
/// file ask, and what each barrel asks in turn, has a question to every effective
/// dependency of the file.
pub proof fn nothing_else_is_followed(
    nodes: Map<Text, BuildView>,
    rel: Text,
    reach: spec_fn((Text, Want)) -> bool,
    file: Text,
)
    requires
        has_first_questions(nodes, rel, reach),
        has_further_questions(nodes, rel, reach),
        effective(nodes, rel).contains(file),
    ensures
        exists|want: Want| #[trigger] reach((file, want)),
        nodes.contains_key(file),
        !nodes[file].is_barrel,
        file != rel,
{
    let want = choose|want: Want| #[trigger] asked(nodes, rel, (file, want));
    let path = choose|path: Seq<(Text, Want)>| #[trigger] chain(nodes, rel, path) && path.last() == (file, want);
    lemma_reached(nodes, rel, reach, path);
    assert(reach((file, want)));
}

proof fn lemma_reached(
    nodes: Map<Text, BuildView>,
    rel: Text,
    reach: spec_fn((Text, Want)) -> bool,
    path: Seq<(Text, Want)>,
)
    requires
        has_first_questions(nodes, rel, reach),
        has_further_questions(nodes, rel, reach),
        chain(nodes, rel, path),
    ensures
        reach(path.last()),
    decreases path.len(),
{
    let edges = nodes[rel].dependency_wants;
    if path.len() == 1 {
        let i = choose|i: int| 0 <= i < edges.len() && (#[trigger] edges[i]).0 == path[0].0 && asks(
            edges[i].1,
            path[0].1,
        );
        assert(nodes[rel].dependency_wants[i] == edges[i]);
        match path[0].1 {
            Want::All => {
                assert(reach((edges[i].0, Want::All)));
            },
            Want::Name(name) => {
                assert(edges[i].1->Named_0.contains(name));
                assert(reach((edges[i].0, Want::Name(name))));
            },
        }
        assert(path.last() == path[0]);
    } else {
        let front = path.drop_last();
        assert forall|i: int| 0 <= i < front.len() - 1 implies step(
            nodes,
            rel,
            #[trigger] front[i],
            front[i + 1],
        ) by {
            assert(front[i] == path[i] && front[i + 1] == path[i + 1]);
        }
        assert(front[0] == path[0]);
        lemma_reached(nodes, rel, reach, front);
        let k = path.len() - 2;
        let a = path[k];
        let b = path[k + 1];
        assert(front.last() == a);
        assert(step(nodes, rel, a, b));
        assert(passes_on(nodes, rel, a.0));
        let barrel = nodes[a.0];
        let through = match a.1 {
            Want::All => true,
            Want::Name(name) => !barrel.name_sources.contains_key(name) && barrel.wildcard_fallbacks.len() == 0,
        };
        if through {
            assert(leads_to(barrel.dependency_wants, b.0));
            let j = choose|j: int|
                0 <= j < barrel.dependency_wants.len() && (#[trigger] barrel.dependency_wants[j]).0 == b.0;
            assert(reach((a.0, a.1)));
            assert(reach((nodes[a.0].dependency_wants[j].0, Want::All)));
            assert(b == (b.0, Want::All));
        } else {
            let name = a.1->Name_0;
            assert(a == (a.0, Want::Name(name)));
            if barrel.name_sources.contains_key(name) {
                assert(reach((a.0, Want::Name(name))));
            } else {
                let open = barrel.wildcard_fallbacks;
                let j = choose|j: int| 0 <= j < open.len() && open[j] == Target::Internal(b.0);
                assert(reach((a.0, Want::Name(name))));
                assert(nodes[a.0].wildcard_fallbacks[j] == Target::Internal(b.0));
                assert(b == (b.0, Want::Name(name)));
            }
        }
        assert(path.last() == b);
    }
}

} // verus!
