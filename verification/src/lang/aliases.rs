//! Where the path aliases of configs lead.
use vstd::prelude::*;
use vstd::utf8::encode_utf8;

use crate::disk::{first_file, first_file_of_both};
use crate::json::{json_in, member, text_member, JsonView};
use crate::lang::jsonc::{has_comment, has_trailing_comma, uncommented_unchanged, without_trailing_comma_unchanged};
use crate::lang::ts_paths::{
    alias, alias_candidates, best_pattern, best_pattern_is_best, captured, config_candidates, config_json,
    extends_candidates, fits, governing, governing_config, governing_config_is_longest, has_star, next_candidates,
    own_dir, parent_candidates, resolved_from, star_at, target_candidates, text_items, ConfigView, ResolvedView,
    SourceView,
};
use crate::path::{extension, is_under, parent};
use crate::placing::{
    ends_well, entries_end_well, is_name, joined_with_a_slash, name_of_entry, parent_of_entry, slashed,
};
use crate::text::{expanded, replace_with, Text};
use crate::tsutil::js_like_candidates;

verus! {

/// Whether a text holds no star.
pub open spec fn starless(s: Text) -> bool {
    forall|i: int| 0 <= i < s.len() ==> #[trigger] s[i] != '*'
}

/// A pattern with a star between two texts.
pub open spec fn starred(before: Text, behind: Text) -> Text {
    before + seq!['*'] + behind
}

proof fn lemma_star(before: Text, behind: Text)
    requires
        starless(before),
    ensures
        star_at(starred(before, behind)) == before.len(),
    decreases before.len(),
{
    let s = starred(before, behind);
    if before.len() == 0 {
        assert(s[0] == '*');
    } else {
        assert(s[0] == before[0]);
        let rest = before.skip(1);
        assert(s.skip(1) =~= starred(rest, behind));
        assert forall|i: int| 0 <= i < rest.len() implies #[trigger] rest[i] != '*' by {
            assert(rest[i] == before[i + 1]);
        }
        lemma_star(rest, behind);
    }
}

proof fn lemma_no_star(s: Text)
    requires
        starless(s),
    ensures
        star_at(s) == s.len(),
    decreases s.len(),
{
    if s.len() > 0 {
        assert(s[0] != '*');
        let rest = s.skip(1);
        assert forall|i: int| 0 <= i < rest.len() implies #[trigger] rest[i] != '*' by {
            assert(rest[i] == s[i + 1]);
        }
        lemma_no_star(rest);
    }
}

/// A pattern with a star matches what starts with the text before the star and
/// ends with the text behind it, and the star stands for what is between them; it
/// matches nothing else. A pattern without a star matches itself alone.
pub proof fn a_star_stands_for_any_text(before: Text, behind: Text, between: Text, spec: Text)
    requires
        starless(before),
    ensures
        fits(starred(before, behind), before + between + behind),
        has_star(starred(before, behind)),
        captured(starred(before, behind), before + between + behind) == between,
        fits(starred(before, behind), spec) ==> exists|text: Text| spec == #[trigger] (before + text + behind),
        fits(before, spec) <==> before == spec,
        !has_star(before),
{
    lemma_star(before, behind);
    lemma_no_star(before);
    let p = starred(before, behind);
    let s = before + between + behind;
    let n = before.len() as int;
    assert(p.skip(n + 1) =~= behind);
    assert(p.take(n) =~= before);
    assert(s.take(n) =~= before);
    assert(s.skip(s.len() - behind.len()) =~= behind);
    assert(s.subrange(n, s.len() - behind.len()) =~= between);
    if fits(p, spec) {
        let text = spec.subrange(n, spec.len() - behind.len());
        assert(spec =~= before + text + behind) by {
            assert(spec.take(n) =~= before);
            assert(spec.skip(spec.len() - behind.len()) =~= behind);
            assert(spec =~= spec.take(n) + text + spec.skip(spec.len() - behind.len()));
        }
    }
}

/// The pattern that counts is the only one that matches.
pub proof fn the_only_match_counts(paths: Seq<(Text, Seq<Text>)>, spec: Text, b: int)
    requires
        0 <= b < paths.len(),
        fits(paths[b].0, spec),
        forall|i: int| 0 <= i < paths.len() && i != b ==> !fits((#[trigger] paths[i]).0, spec),
    ensures
        best_pattern(paths, spec) == Some(b),
{
    best_pattern_is_best(paths, spec);
    assert(fits(paths[b].0, spec));
}

/// The pattern that counts is the one that is the specifier itself, if there is
/// one; otherwise the one with more text before its star than any other that
/// matches.
pub proof fn the_closest_match_counts(paths: Seq<(Text, Seq<Text>)>, spec: Text, b: int)
    requires
        0 <= b < paths.len(),
        fits(paths[b].0, spec),
        forall|i: int|
            0 <= i < paths.len() && i != b && fits((#[trigger] paths[i]).0, spec) ==> (paths[b].0 == spec && starless(
                spec,
            ) && paths[i].0 != spec) || (!(starless(paths[i].0)) && !(starless(paths[b].0)) && star_at(paths[i].0)
                < star_at(paths[b].0)),
    ensures
        best_pattern(paths, spec) == Some(b),
{
    best_pattern_is_best(paths, spec);
    assert(fits(paths[b].0, spec));
    let a = best_pattern(paths, spec)->0;
    if a != b {
        assert(fits(paths[a].0, spec));
        if paths[b].0 == spec && starless(spec) && paths[a].0 != spec {
            lemma_no_star(spec);
            assert(!has_star(paths[b].0));
            assert(!has_star(paths[a].0));
        } else {
            assert(star_at(paths[a].0) < star_at(paths[b].0));
            if !has_star(paths[a].0) {
                lemma_has_star(paths[a].0);
            }
        }
    }
}

proof fn lemma_has_star(s: Text)
    requires
        !has_star(s),
    ensures
        starless(s),
    decreases s.len(),
{
    if s.len() > 0 {
        let rest = s.skip(1);
        lemma_star_bound(rest);
        assert(s[0] != '*');
        assert(!has_star(rest));
        lemma_has_star(rest);
        assert forall|i: int| 0 <= i < s.len() implies #[trigger] s[i] != '*' by {
            if i > 0 {
                assert(rest[i - 1] == s[i]);
            }
        }
    }
}

proof fn lemma_star_bound(s: Text)
    ensures
        0 <= star_at(s) <= s.len(),
    decreases s.len(),
{
    if s.len() > 0 && s[0] != '*' {
        lemma_star_bound(s.skip(1));
    }
}

proof fn lemma_expand(s: Text, to: Text)
    requires
        starless(s),
    ensures
        replace_with(s, '*', to) == s,
    decreases s.len(),
{
    let f = expanded('*', to);
    if s.len() == 0 {
        reveal(Seq::flat_map);
        assert(s =~= Seq::<char>::empty());
        assert(s.flat_map(f) =~= Seq::<char>::empty());
    } else {
        let front = s.drop_last();
        s.lemma_flat_map_take_append(f, s.len() - 1);
        assert(s.take(s.len() as int) =~= s);
        assert(s.take(s.len() - 1) =~= front);
        assert forall|i: int| 0 <= i < front.len() implies #[trigger] front[i] != '*' by {
            assert(front[i] == s[i]);
        }
        lemma_expand(front, to);
        assert(s[s.len() - 1] != '*');
        assert(front + seq![s.last()] =~= s);
    }
}

/// In a target, what a star stands for takes its place.
pub proof fn the_star_of_a_target_is_replaced(before: Text, behind: Text, to: Text)
    requires
        starless(before),
        starless(behind),
    ensures
        replace_with(starred(before, behind), '*', to) == before + to + behind,
        replace_with(before, '*', to) == before,
    decreases behind.len(),
{
    let f = expanded('*', to);
    let s = starred(before, behind);
    lemma_expand(before, to);
    s.lemma_flat_map_take_append(f, s.len() - 1);
    assert(s.take(s.len() as int) =~= s);
    if behind.len() == 0 {
        assert(s.take(s.len() - 1) =~= before);
        assert(s[s.len() - 1] == '*');
        assert(before + to + behind =~= before + to);
    } else {
        let less = behind.drop_last();
        assert(s.take(s.len() - 1) =~= starred(before, less));
        assert forall|i: int| 0 <= i < less.len() implies #[trigger] less[i] != '*' by {
            assert(less[i] == behind[i]);
        }
        the_star_of_a_target_is_replaced(before, less, to);
        assert(s[s.len() - 1] == behind[behind.len() - 1]);
        assert(before + to + less + seq![behind.last()] =~= before + to + behind);
    }
}

proof fn lemma_targets(disk: Map<Text, Option<Text>>, list: Seq<Text>, f: spec_fn(Text) -> Seq<Text>, k: int)
    requires
        0 <= k < list.len(),
        first_file(disk, f(list[k])) is Some,
        forall|j: int| 0 <= j < k ==> first_file(disk, f(#[trigger] list[j])) is None,
    ensures
        first_file(disk, list.flat_map(f)) == first_file(disk, f(list[k])),
    decreases list.len(),
{
    let front = list.drop_last();
    list.lemma_flat_map_take_append(f, list.len() - 1);
    assert(list.take(list.len() as int) =~= list);
    assert(list.take(list.len() - 1) =~= front);
    first_file_of_both(disk, front.flat_map(f), f(list.last()));
    if k < front.len() {
        assert(front[k] == list[k]);
        assert forall|j: int| 0 <= j < k implies first_file(disk, f(#[trigger] front[j])) is None by {
            assert(front[j] == list[j]);
        }
        lemma_targets(disk, front, f, k);
    } else {
        assert forall|j: int| 0 <= j < front.len() implies first_file(disk, f(#[trigger] front[j])) is None by {
            assert(front[j] == list[j]);
        }
        lemma_no_targets(disk, front, f);
    }
}

proof fn lemma_no_targets(disk: Map<Text, Option<Text>>, list: Seq<Text>, f: spec_fn(Text) -> Seq<Text>)
    requires
        forall|j: int| 0 <= j < list.len() ==> first_file(disk, f(#[trigger] list[j])) is None,
    ensures
        first_file(disk, list.flat_map(f)) is None,
    decreases list.len(),
{
    if list.len() == 0 {
        reveal(Seq::flat_map);
        assert(list =~= Seq::<Text>::empty());
        assert(list.flat_map(f) =~= Seq::<Text>::empty());
    } else {
        let front = list.drop_last();
        list.lemma_flat_map_take_append(f, list.len() - 1);
        assert(list.take(list.len() as int) =~= list);
        assert(list.take(list.len() - 1) =~= front);
        first_file_of_both(disk, front.flat_map(f), f(list.last()));
        assert forall|j: int| 0 <= j < front.len() implies first_file(disk, f(#[trigger] front[j])) is None by {
            assert(front[j] == list[j]);
        }
        lemma_no_targets(disk, front, f);
        assert(first_file(disk, f(list[list.len() - 1])) is None);
    }
}

/// Whether a target with a star between two texts, and not from the root, is meant.
pub open spec fn is_starred_target(target: Text, before: Text, behind: Text) -> bool {
    &&& starless(before)
    &&& starless(behind)
    &&& target == starred(before, behind)
}

/// A specifier that the pattern which counts matches, with a star for `between`,
/// leads to the first of its targets that stands for a file, with `between` in the
/// place of the star, below the base directory.
pub proof fn an_alias_leads_to_its_target(
    disk: Map<Text, Option<Text>>,
    c: ResolvedView,
    b: int,
    before: Text,
    behind: Text,
    between: Text,
    k: int,
    target_before: Text,
    target_behind: Text,
)
    requires
        starless(before),
        0 <= b < c.paths.len(),
        c.paths[b].0 == starred(before, behind),
        best_pattern(c.paths, before + between + behind) == Some(b),
        0 <= k < c.paths[b].1.len(),
        is_starred_target(c.paths[b].1[k], target_before, target_behind),
        c.base_dir.len() > 0,
        c.base_dir.last() != '/',
        (target_before + between + target_behind).len() > 0,
        (target_before + between + target_behind)[0] != '/',
        forall|j: int|
            0 <= j < k ==> first_file(
                disk,
                target_candidates(c.base_dir, between)(#[trigger] c.paths[b].1[j]),
            ) is None,
        first_file(
            disk,
            js_like_candidates(slashed(c.base_dir, target_before + between + target_behind)),
        ) is Some,
    ensures
        first_file(disk, config_candidates(c, before + between + behind)) == first_file(
            disk,
            js_like_candidates(slashed(c.base_dir, target_before + between + target_behind)),
        ),
{
    let spec = before + between + behind;
    a_star_stands_for_any_text(before, behind, between, spec);
    the_star_of_a_target_is_replaced(target_before, target_behind, between);
    joined_with_a_slash(c.base_dir, target_before + between + target_behind);
    let f = target_candidates(c.base_dir, between);
    lemma_targets(disk, c.paths[b].1, f, k);
}

/// A specifier that is itself the pattern which counts leads to the first of its
/// targets that stands for a file, below the base directory.
pub proof fn an_exact_alias_leads_to_its_target(
    disk: Map<Text, Option<Text>>,
    c: ResolvedView,
    b: int,
    spec: Text,
    k: int,
)
    requires
        starless(spec),
        0 <= b < c.paths.len(),
        c.paths[b].0 == spec,
        best_pattern(c.paths, spec) == Some(b),
        0 <= k < c.paths[b].1.len(),
        starless(c.paths[b].1[k]),
        c.paths[b].1[k].len() > 0,
        c.paths[b].1[k][0] != '/',
        c.base_dir.len() > 0,
        c.base_dir.last() != '/',
        forall|j: int|
            0 <= j < k ==> first_file(
                disk,
                target_candidates(c.base_dir, Seq::empty())(#[trigger] c.paths[b].1[j]),
            ) is None,
        first_file(disk, js_like_candidates(slashed(c.base_dir, c.paths[b].1[k]))) is Some,
    ensures
        first_file(disk, config_candidates(c, spec)) == first_file(
            disk,
            js_like_candidates(slashed(c.base_dir, c.paths[b].1[k])),
        ),
{
    lemma_no_star(spec);
    lemma_expand(c.paths[b].1[k], Seq::empty());
    joined_with_a_slash(c.base_dir, c.paths[b].1[k]);
    let f = target_candidates(c.base_dir, Seq::empty());
    lemma_targets(disk, c.paths[b].1, f, k);
}

/// A specifier that no pattern matches is a path below the base directory where
/// the config sets one, and stands for nothing otherwise.
pub proof fn other_names_start_at_the_base(disk: Map<Text, Option<Text>>, c: ResolvedView, spec: Text)
    requires
        forall|i: int| 0 <= i < c.paths.len() ==> !fits((#[trigger] c.paths[i]).0, spec),
        spec.len() > 0,
        spec[0] != '/',
        c.base_dir.len() > 0,
        c.base_dir.last() != '/',
    ensures
        c.has_base_url ==> config_candidates(c, spec) == js_like_candidates(slashed(c.base_dir, spec)),
        !c.has_base_url ==> config_candidates(c, spec).len() == 0,
{
    best_pattern_is_best(c.paths, spec);
    joined_with_a_slash(c.base_dir, spec);
}

/// A config governs the files in and below its directory, unless another does
/// whose directory has a longer path; where none lies above a file, no alias
/// counts.
pub proof fn the_nearest_config_counts(configs: Seq<ConfigView>, dir: Text, spec: Text, b: int)
    ensures
        0 <= b < configs.len() && is_under(dir, configs[b].dir) && (forall|i: int|
            0 <= i < configs.len() && i != b && is_under(dir, (#[trigger] configs[i]).dir) ==> encode_utf8(
                configs[i].dir,
            ).len() < encode_utf8(configs[b].dir).len()) ==> alias_candidates(configs, dir, spec)
            == config_candidates(configs[b].resolved, spec),
        (forall|i: int| 0 <= i < configs.len() ==> !is_under(dir, (#[trigger] configs[i]).dir)) ==> alias_candidates(
            configs,
            dir,
            spec,
        ).len() == 0,
{
    governing_config_is_longest(configs, dir);
    if 0 <= b < configs.len() && is_under(dir, configs[b].dir) && (forall|i: int|
        0 <= i < configs.len() && i != b && is_under(dir, (#[trigger] configs[i]).dir) ==> encode_utf8(
            configs[i].dir,
        ).len() < encode_utf8(configs[b].dir).len()) {
        let a = governing_config(configs, dir)->0;
        assert(is_under(dir, configs[b].dir));
        if a != b {
            assert(is_under(dir, configs[a].dir));
        }
    }
}

/// A config is read as JSON; where it holds no comments and no trailing commas, as
/// it is.
pub proof fn plain_configs_are_read_as_they_are(path: Text, text: Text)
    requires
        !has_comment(text, false),
        !has_trailing_comma(text, false),
    ensures
        config_json(SourceView { path, text: Some(text) }) == json_in(text),
{
    uncommented_unchanged(text, false);
    without_trailing_comma_unchanged(text, false);
}

/// What a config comes to: its own base directory, below its own directory, where
/// it sets one, and its own patterns where it has any; otherwise those of the
/// config that it extends; otherwise its own directory, and none.
pub proof fn configs_override_what_they_extend(chain: Seq<SourceView>, k: int, json: JsonView, url: Text)
    requires
        0 <= k < chain.len(),
        k <= 10,
        config_json(chain[k]) == Some(json),
    ensures
        ({
            let r = resolved_from(chain, k);
            let dir = own_dir(chain[k].path);
            let extends = text_member(json, "extends"@) is Some && k + 1 < chain.len();
            let options = member(json, "compilerOptions"@);
            let own_url = match options {
                Some(o) => text_member(o, "baseUrl"@),
                None => None,
            };
            let own_paths = match options {
                Some(o) => match member(o, "paths"@) {
                    Some(JsonView::Table(entries)) => Some(entries),
                    _ => None,
                },
                None => None,
            };
            &&& own_url == Some(url) && url.len() > 0 && url[0] != '/' && dir.len() > 0 && dir.last() != '/'
                ==> r.has_base_url && r.base_dir == slashed(dir, url)
            &&& own_url is None && extends ==> r.has_base_url == resolved_from(chain, k + 1).has_base_url
                && r.base_dir == resolved_from(chain, k + 1).base_dir
            &&& own_url is None && !extends ==> !r.has_base_url && r.base_dir == dir
            &&& own_paths is None && extends ==> r.paths == resolved_from(chain, k + 1).paths
            &&& own_paths is None && !extends ==> r.paths.len() == 0
            &&& own_paths is Some ==> r.paths == own_paths->0.filter_map(alias())
        }),
{
    let dir = own_dir(chain[k].path);
    if url.len() > 0 && url[0] != '/' && dir.len() > 0 && dir.last() != '/' {
        joined_with_a_slash(dir, url);
    }
}

/// A pattern has the texts of its list for targets.
pub proof fn patterns_have_the_texts_of_their_lists(
    entries: Seq<(Text, JsonView)>,
    pattern: Text,
    items: Seq<JsonView>,
    k: int,
    target: Text,
    i: int,
)
    requires
        0 <= k < entries.len(),
        entries[k] == (pattern, JsonView::List(items)),
        0 <= i < items.len(),
        items[i] == JsonView::Text(target),
    ensures
        entries.filter_map(alias()).contains((pattern, text_items(items))),
        text_items(items).contains(target),
{
    crate::lists::lemma_in_filter_map(entries, alias(), k);
    let f = |v: JsonView|
        match v {
            JsonView::Text(s) => Some(s),
            _ => None,
        };
    crate::lists::lemma_in_filter_map(items, f, i);
    assert(text_items(items) =~= items.filter_map(f));
}

/// A config that cannot be read, is no JSON, or stands more than ten deep says
/// nothing.
pub proof fn unreadable_configs_say_nothing(chain: Seq<SourceView>, k: int)
    requires
        0 <= k < chain.len(),
        config_json(chain[k]) is None || k > 10,
    ensures
        resolved_from(chain, k) == (ResolvedView {
            base_dir: own_dir(chain[k].path),
            has_base_url: false,
            paths: Seq::empty(),
        }),
{
}

/// A `tsconfig.json` or `jsconfig.json` that sets a base directory or has patterns
/// governs the directory that it lies in; one that does neither, and any other file,
/// governs none.
pub proof fn configs_govern_their_directories(chain: Seq<SourceView>, dir: Text, name: Text)
    requires
        chain.len() > 0,
        ends_well(dir),
        is_name(name),
        name != seq!['.', '.'],
        chain[0].path == slashed(dir, name),
    ensures
        ({
            let r = resolved_from(chain, 0);
            let counts = (name == "tsconfig.json"@ || name == "jsconfig.json"@) && (r.paths.len() > 0
                || r.has_base_url);
            &&& counts ==> governing()(chain) == Some(ConfigView { dir, resolved: r })
            &&& !counts ==> governing()(chain) is None
        }),
        own_dir(chain[0].path) == dir,
{
    parent_of_entry(dir, name);
    name_of_entry(dir, name);
}

/// What a config extends by a path lies at that path from its directory, with
/// `.json` behind it where the path has no extension.
pub proof fn extended_paths_start_at_the_config(dir: Text, extends: Text)
    requires
        extends.len() > 0,
        extends[0] == '.',
        dir.len() > 0,
        dir.last() != '/',
    ensures
        extends_candidates(dir, extends) == (if extension(slashed(dir, extends)) is None {
            seq![slashed(dir, extends), slashed(dir, extends) + seq!['.', 'j', 's', 'o', 'n']]
        } else {
            seq![slashed(dir, extends)]
        }),
{
    reveal_strlit(".json");
    assert(".json"@ =~= seq!['.', 'j', 's', 'o', 'n']);
    joined_with_a_slash(dir, extends);
}

/// What a config extends by the name of a package lies under `node_modules` in its
/// directory: as it is, as a directory with a config, or with `.json` behind it; or
/// else in the directory above.
pub proof fn extended_packages_lie_under_node_modules(dir: Text, entry: Text, name: Text)
    requires
        ends_well(dir),
        is_name(entry),
        is_name(name),
        name[0] != '.',
    ensures
        ({
            let path = slashed(slashed(slashed(dir, entry), "node_modules"@), name);
            let here = if extension(path) is None {
                seq![path, slashed(path, "tsconfig.json"@), path + seq!['.', 'j', 's', 'o', 'n']]
            } else {
                seq![path, slashed(path, "tsconfig.json"@)]
            };
            extends_candidates(slashed(dir, entry), name) == here + extends_candidates(dir, name)
        }),
{
    reveal_strlit(".json");
    reveal_strlit("node_modules");
    reveal_strlit("tsconfig.json");
    assert(".json"@ =~= seq!['.', 'j', 's', 'o', 'n']);
    let at = slashed(dir, entry);
    entries_end_well(dir, entry);
    parent_of_entry(dir, entry);
    joined_with_a_slash(at, "node_modules"@);
    let modules = slashed(at, "node_modules"@);
    assert(modules.last() == 's');
    joined_with_a_slash(modules, name);
    let path = slashed(modules, name);
    assert(path.last() == name.last());
    joined_with_a_slash(path, "tsconfig.json"@);
    assert(name[0] != '/');
}

/// Of two patterns with the same text before their stars, the one that stands
/// first counts where it matches.
pub proof fn the_first_of_equal_matches_counts(
    paths: Seq<(Text, Seq<Text>)>,
    spec: Text,
    i: int,
    j: int,
    before: Text,
    near: Text,
    far: Text,
)
    requires
        0 <= i < j < paths.len(),
        starless(before),
        paths[i].0 == starred(before, near),
        paths[j].0 == starred(before, far),
        fits(paths[i].0, spec),
    ensures
        best_pattern(paths, spec) != Some(j),
{
    lemma_star(before, near);
    lemma_star(before, far);
    lemma_earlier(paths, spec, i, j);
}

proof fn lemma_earlier(paths: Seq<(Text, Seq<Text>)>, spec: Text, i: int, j: int)
    requires
        0 <= i < j < paths.len(),
        has_star(paths[i].0),
        has_star(paths[j].0),
        star_at(paths[i].0) == star_at(paths[j].0),
        fits(paths[i].0, spec),
    ensures
        best_pattern(paths, spec) != Some(j),
    decreases paths.len(),
{
    let front = paths.drop_last();
    assert(front[i] == paths[i]);
    best_pattern_is_best(front, spec);
    if j < paths.len() - 1 {
        assert(front[j] == paths[j]);
        lemma_earlier(front, spec, i, j);
    } else {
        assert(fits(front[i].0, spec));
        let b = best_pattern(front, spec)->0;
        assert(paths[b] == front[b]);
    }
}

/// Of two configs for the same directory the later one counts.
pub proof fn the_last_config_of_a_directory_counts(configs: Seq<ConfigView>, dir: Text, i: int, j: int)
    requires
        0 <= i < j < configs.len(),
        configs[i].dir == configs[j].dir,
    ensures
        governing_config(configs, dir) != Some(i),
    decreases configs.len(),
{
    let front = configs.drop_last();
    if j < configs.len() - 1 {
        assert(front[i] == configs[i] && front[j] == configs[j]);
        the_last_config_of_a_directory_counts(front, dir, i, j);
    } else {
        assert(front[i] == configs[i]);
        governing_config_is_longest(front, dir);
    }
}

/// Up to ten configs are followed, one extending the other; what lies deeper is
/// neither looked for nor counted.
pub proof fn ten_configs_are_followed(chain: Seq<SourceView>, k: int)
    ensures
        0 < chain.len() <= 11 ==> next_candidates(chain) == parent_candidates(chain.last()),
        chain.len() > 11 ==> next_candidates(chain).len() == 0,
        k > 10 ==> resolved_from(chain, k).paths.len() == 0 && !resolved_from(chain, k).has_base_url,
{
}

/// A config lies in the directory that its path names, and in the current one where
/// its path names none.
pub proof fn configs_lie_in_a_directory(path: Text)
    ensures
        own_dir(path) == match parent(path) {
            Some(dir) => dir,
            None => seq!['.'],
        },
{
    reveal_strlit(".");
    assert("."@ =~= seq!['.']);
}

} // verus!
