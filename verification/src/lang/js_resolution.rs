//! Where the specifiers of scripts lead.
use vstd::prelude::*;

use crate::disk::{first_file, first_file_is_candidate, first_file_of_both};
use crate::facts::Target;
use crate::lang::specifier::{specifier_candidates, specifier_target, Scope};
use crate::lang::js_pkg::package_candidates;
use crate::lang::ts_paths::alias_candidates;
use crate::path::is_under;
use crate::placing::{
    file_below_the_root, is_name, is_proper, joined_with_a_slash, names_of_strung, slashed, strung,
};
use crate::text::{trim_start, Text};
use crate::tsutil::{js_like_candidates, under_node_modules};

verus! {

/// The extensions that a specifier may leave out, the one that counts most
/// first.
pub open spec fn left_out() -> Seq<Text> {
    seq!["ts"@, "tsx"@, "js"@, "jsx"@, "mjs"@, "cjs"@, "json"@]
}

/// A path with an extension behind it.
pub open spec fn with_extension(path: Text, ext: Text) -> Text {
    path + seq!['.'] + ext
}

/// The index file of a directory with an extension.
pub open spec fn index_file(dir: Text, ext: Text) -> Text {
    with_extension(slashed(dir, "index"@), ext)
}

proof fn lemma_first_at(disk: Map<Text, Option<Text>>, list: Seq<Text>, k: int)
    requires
        0 <= k < list.len(),
        disk.contains_key(list[k]),
        forall|j: int| 0 <= j < k ==> !disk.contains_key(#[trigger] list[j]),
    ensures
        first_file(disk, list) == Some(list[k]),
{
    let front = list.take(k);
    let rest = list.skip(k);
    assert(front + rest =~= list);
    first_file_of_both(disk, front, rest);
    first_file_is_candidate(disk, front);
    if first_file(disk, front) is Some {
        let p = first_file(disk, front)->0;
        let i = choose|i: int| 0 <= i < front.len() && front[i] == p;
        assert(list[i] == p);
    }
    let one = seq![list[k]];
    let more = list.skip(k + 1);
    assert(rest =~= one + more);
    first_file_of_both(disk, one, more);
    assert(one.drop_last() =~= Seq::<Text>::empty());
    assert(one.last() == list[k]);
    reveal_with_fuel(first_file, 2);
    assert(first_file(disk, one) == Some(list[k]));
}

proof fn lemma_candidates(path: Text)
    requires
        path.len() > 0,
        path.last() != '/',
        !under_node_modules(path),
    ensures
        js_like_candidates(path).len() == 14,
        js_like_candidates(path)[0] == path,
        forall|i: int|
            0 <= i < 7 ==> #[trigger] js_like_candidates(path)[1 + i] == with_extension(path, left_out()[i]),
        forall|i: int|
            0 <= i < 6 ==> #[trigger] js_like_candidates(path)[8 + i] == index_file(path, left_out()[i]),
{
    reveal_strlit(".ts");
    reveal_strlit(".tsx");
    reveal_strlit(".js");
    reveal_strlit(".jsx");
    reveal_strlit(".mjs");
    reveal_strlit(".cjs");
    reveal_strlit(".json");
    reveal_strlit("ts");
    reveal_strlit("tsx");
    reveal_strlit("js");
    reveal_strlit("jsx");
    reveal_strlit("mjs");
    reveal_strlit("cjs");
    reveal_strlit("json");
    reveal_strlit("index");
    reveal_strlit("index.ts");
    reveal_strlit("index.tsx");
    reveal_strlit("index.js");
    reveal_strlit("index.jsx");
    reveal_strlit("index.mjs");
    reveal_strlit("index.cjs");
    let c = js_like_candidates(path);
    assert(c[1] =~= with_extension(path, "ts"@));
    assert(c[2] =~= with_extension(path, "tsx"@));
    assert(c[3] =~= with_extension(path, "js"@));
    assert(c[4] =~= with_extension(path, "jsx"@));
    assert(c[5] =~= with_extension(path, "mjs"@));
    assert(c[6] =~= with_extension(path, "cjs"@));
    assert(c[7] =~= with_extension(path, "json"@));
    joined_with_a_slash(path, "index.ts"@);
    joined_with_a_slash(path, "index.tsx"@);
    joined_with_a_slash(path, "index.js"@);
    joined_with_a_slash(path, "index.jsx"@);
    joined_with_a_slash(path, "index.mjs"@);
    joined_with_a_slash(path, "index.cjs"@);
    assert(c[8] =~= index_file(path, "ts"@));
    assert(c[9] =~= index_file(path, "tsx"@));
    assert(c[10] =~= index_file(path, "js"@));
    assert(c[11] =~= index_file(path, "jsx"@));
    assert(c[12] =~= index_file(path, "mjs"@));
    assert(c[13] =~= index_file(path, "cjs"@));
    assert forall|i: int| 0 <= i < 7 implies #[trigger] c[1 + i] == with_extension(path, left_out()[i]) by {
        assert(i == 0 || i == 1 || i == 2 || i == 3 || i == 4 || i == 5 || i == 6);
    }
    assert forall|i: int| 0 <= i < 6 implies #[trigger] c[8 + i] == index_file(path, left_out()[i]) by {
        assert(i == 0 || i == 1 || i == 2 || i == 3 || i == 4 || i == 5);
    }
}

/// A path that is a file stands for itself.
pub proof fn a_file_stands_for_itself(disk: Map<Text, Option<Text>>, path: Text)
    requires
        path.len() > 0,
        path.last() != '/',
        !under_node_modules(path),
        disk.contains_key(path),
    ensures
        first_file(disk, js_like_candidates(path)) == Some(path),
{
    lemma_candidates(path);
    lemma_first_at(disk, js_like_candidates(path), 0);
}

/// A path that is no file stands for the file that one of the extensions
/// completes it to, the first that does.
pub proof fn an_extension_may_be_left_out(disk: Map<Text, Option<Text>>, path: Text, i: int)
    requires
        path.len() > 0,
        path.last() != '/',
        !under_node_modules(path),
        0 <= i < 7,
        !disk.contains_key(path),
        forall|j: int| 0 <= j < i ==> !disk.contains_key(with_extension(path, #[trigger] left_out()[j])),
        disk.contains_key(with_extension(path, left_out()[i])),
    ensures
        first_file(disk, js_like_candidates(path)) == Some(with_extension(path, left_out()[i])),
{
    lemma_candidates(path);
    let c = js_like_candidates(path);
    assert(c[1 + i] == with_extension(path, left_out()[i]));
    assert forall|j: int| 0 <= j < 1 + i implies !disk.contains_key(#[trigger] c[j]) by {
        if j > 0 {
            assert(c[1 + (j - 1)] == with_extension(path, left_out()[j - 1]));
        }
    }
    lemma_first_at(disk, c, 1 + i);
}

/// A path that no extension completes to a file stands for the index file of a
/// directory, in the first of the extensions but that of JSON.
pub proof fn a_directory_stands_for_its_index(disk: Map<Text, Option<Text>>, path: Text, i: int)
    requires
        path.len() > 0,
        path.last() != '/',
        !under_node_modules(path),
        0 <= i < 6,
        !disk.contains_key(path),
        forall|j: int| 0 <= j < 7 ==> !disk.contains_key(with_extension(path, #[trigger] left_out()[j])),
        forall|j: int| 0 <= j < i ==> !disk.contains_key(index_file(path, #[trigger] left_out()[j])),
        disk.contains_key(index_file(path, left_out()[i])),
    ensures
        first_file(disk, js_like_candidates(path)) == Some(index_file(path, left_out()[i])),
{
    lemma_candidates(path);
    let c = js_like_candidates(path);
    assert(c[8 + i] == index_file(path, left_out()[i]));
    assert forall|j: int| 0 <= j < 8 + i implies !disk.contains_key(#[trigger] c[j]) by {
        if 0 < j < 8 {
            assert(c[1 + (j - 1)] == with_extension(path, left_out()[j - 1]));
        } else if j >= 8 {
            assert(c[8 + (j - 8)] == index_file(path, left_out()[j - 8]));
        }
    }
    lemma_first_at(disk, c, 8 + i);
}

/// A path stands for nothing but itself, itself with an extension, or the index
/// file of a directory; and for nothing at all under `node_modules`.
pub proof fn a_path_stands_for_nothing_else(disk: Map<Text, Option<Text>>, path: Text)
    requires
        path.len() > 0,
        path.last() != '/',
    ensures
        match first_file(disk, js_like_candidates(path)) {
            Some(file) => !under_node_modules(path) && disk.contains_key(file) && (file == path || exists|i: int|
                0 <= i < 7 && (file == with_extension(path, #[trigger] left_out()[i]) || (i < 6 && file
                    == index_file(path, left_out()[i])))),
            None => under_node_modules(path) || (!disk.contains_key(path) && forall|i: int|
                0 <= i < 7 ==> !disk.contains_key(with_extension(path, #[trigger] left_out()[i])) && (i < 6
                    ==> !disk.contains_key(index_file(path, left_out()[i])))),
        },
{
    let c = js_like_candidates(path);
    first_file_is_candidate(disk, c);
    if !under_node_modules(path) {
        lemma_candidates(path);
        match first_file(disk, c) {
            Some(file) => {
                let k = choose|k: int| 0 <= k < c.len() && c[k] == file;
                if 0 < k < 8 {
                    assert(c[1 + (k - 1)] == with_extension(path, left_out()[k - 1]));
                } else if k >= 8 {
                    assert(c[8 + (k - 8)] == index_file(path, left_out()[k - 8]));
                }
            },
            None => {
                assert(!disk.contains_key(c[0]));
                assert forall|i: int| 0 <= i < 7 implies !disk.contains_key(
                    with_extension(path, #[trigger] left_out()[i]),
                ) && (i < 6 ==> !disk.contains_key(index_file(path, left_out()[i]))) by {
                    assert(!disk.contains_key(c[1 + i]));
                    if i < 6 {
                        assert(!disk.contains_key(c[8 + i]));
                    }
                }
            },
        }
    }
}

/// Whether a file that a specifier was found to stand for is known as `rest`:
/// its canonical path is the root, a slash and `rest`, and no part of it is
/// `node_modules`.
pub open spec fn known_as(disk: Map<Text, Option<Text>>, root: Text, file: Text, rest: Text) -> bool {
    &&& root.len() > 0
    &&& is_proper(rest)
    &&& forall|i: int| 0 <= i < rest.len() ==> #[trigger] rest[i] != '\\'
    &&& disk.contains_key(file)
    &&& disk[file] == Some(slashed(root, rest))
    &&& !under_node_modules(slashed(root, rest))
}

/// A specifier that starts with a dot is a path from the directory of the
/// importing file.
pub proof fn dotted_specifier_starts_at_the_importer(
    scope: Scope,
    disk: Map<Text, Option<Text>>,
    spec: Text,
    file: Text,
    rest: Text,
)
    requires
        spec.len() > 0,
        spec[0] == '.',
        scope.dir.len() > 0,
        scope.dir.last() != '/',
        first_file(disk, js_like_candidates(slashed(scope.dir, spec))) == Some(file),
        known_as(disk, scope.root, file, rest),
    ensures
        specifier_target(scope, disk, spec) == Target::Internal(rest),
{
    joined_with_a_slash(scope.dir, spec);
    file_below_the_root(disk, scope.root, file, rest);
}

/// A specifier with a dot in front and without its extension leads to the file
/// that has the extension, where that is the only one.
pub proof fn extension_is_found_from_the_importer(
    scope: Scope,
    disk: Map<Text, Option<Text>>,
    spec: Text,
    i: int,
    rest: Text,
)
    requires
        spec.len() > 0,
        spec[0] == '.',
        spec.last() != '/',
        scope.dir.len() > 0,
        scope.dir.last() != '/',
        !under_node_modules(slashed(scope.dir, spec)),
        0 <= i < 7,
        !disk.contains_key(slashed(scope.dir, spec)),
        forall|j: int|
            0 <= j < i ==> !disk.contains_key(
                with_extension(slashed(scope.dir, spec), #[trigger] left_out()[j]),
            ),
        known_as(disk, scope.root, with_extension(slashed(scope.dir, spec), left_out()[i]), rest),
    ensures
        specifier_target(scope, disk, spec) == Target::Internal(rest),
{
    let path = slashed(scope.dir, spec);
    assert(path.last() == spec.last());
    an_extension_may_be_left_out(disk, path, i);
    dotted_specifier_starts_at_the_importer(scope, disk, spec, with_extension(path, left_out()[i]), rest);
}

/// A specifier that starts with a slash is a path from the root.
pub proof fn slashed_specifier_starts_at_the_root(
    scope: Scope,
    disk: Map<Text, Option<Text>>,
    path: Text,
    file: Text,
    rest: Text,
)
    requires
        path.len() > 0,
        path[0] != '/',
        scope.root.len() > 0,
        scope.root.last() != '/',
        first_file(disk, js_like_candidates(slashed(scope.root, path))) == Some(file),
        known_as(disk, scope.root, file, rest),
    ensures
        specifier_target(scope, disk, seq!['/'] + path) == Target::Internal(rest),
{
    let spec = seq!['/'] + path;
    assert(spec.skip(1) =~= path);
    reveal_with_fuel(trim_start, 2);
    assert(trim_start(spec, '/') == path);
    joined_with_a_slash(scope.root, path);
    file_below_the_root(disk, scope.root, file, rest);
}

/// A specifier that is no path is an alias if it can be one, and the name of a
/// package otherwise.
pub proof fn aliases_come_before_packages(
    scope: Scope,
    disk: Map<Text, Option<Text>>,
    spec: Text,
    file: Text,
    rest: Text,
)
    requires
        spec.len() == 0 || (spec[0] != '.' && spec[0] != '/'),
        first_file(disk, alias_candidates(scope.configs, scope.dir, spec)) == Some(file) || (first_file(
            disk,
            alias_candidates(scope.configs, scope.dir, spec),
        ) is None && first_file(disk, package_candidates(scope.packages, spec)) == Some(file)),
        known_as(disk, scope.root, file, rest),
    ensures
        specifier_target(scope, disk, spec) == Target::Internal(rest),
{
    first_file_of_both(
        disk,
        alias_candidates(scope.configs, scope.dir, spec),
        package_candidates(scope.packages, spec),
    );
    file_below_the_root(disk, scope.root, file, rest);
}

/// A specifier that stands for no file, for one outside of the root, or for one
/// under `node_modules`, stays as it is written.
pub proof fn what_is_not_found_stays_as_it_is(scope: Scope, disk: Map<Text, Option<Text>>, spec: Text)
    ensures
        first_file(disk, specifier_candidates(scope, spec)) is None ==> specifier_target(scope, disk, spec)
            == Target::External(spec),
        forall|file: Text|
            first_file(disk, specifier_candidates(scope, spec)) == Some(file) && (match #[trigger] disk[file] {
                Some(canonical) => !is_under(canonical, scope.root) || under_node_modules(canonical),
                None => true,
            }) ==> specifier_target(scope, disk, spec) == Target::External(spec),
{
}

/// Further slashes in front of a specifier that starts with one make no
/// difference.
pub proof fn more_slashes_make_no_difference(scope: Scope, disk: Map<Text, Option<Text>>, spec: Text)
    requires
        spec.len() > 0,
        spec[0] == '/',
    ensures
        first_file(disk, specifier_candidates(scope, seq!['/'] + spec)) == first_file(
            disk,
            specifier_candidates(scope, spec),
        ),
{
    let more = seq!['/'] + spec;
    assert(more[0] == '/');
    assert(more.skip(1) =~= spec);
    assert(trim_start(more, '/') == trim_start(spec, '/'));
}

/// A path lies under `node_modules` where one of its parts is that name, wherever it
/// stands.
pub proof fn third_parties_lie_under_node_modules(parts: Seq<Text>)
    requires
        parts.len() > 0,
        forall|i: int| 0 <= i < parts.len() ==> is_name(#[trigger] parts[i]),
    ensures
        under_node_modules(strung(parts, '/')) <==> exists|k: int|
            0 <= k < parts.len() && #[trigger] parts[k] == "node_modules"@,
{
    names_of_strung(parts);
}

} // verus!
