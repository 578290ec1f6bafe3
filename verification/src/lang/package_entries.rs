//! Where the names of packages lead.
use vstd::prelude::*;

use crate::disk::{first_file, first_file_of_both};
use crate::json::{entry, json_in, member, text_member, JsonView};
use crate::lang::js_pkg::{
    conditions, entry_candidates, export_candidates, exported, first_text, package_candidates, package_name,
    package_of, packages, slash_from, subpath, subpath_candidates, without_here, PackageView,
};
use crate::placing::{ends_well, joined_with_a_slash, name_of_entry, parent_of_entry, slashed};
use crate::text::Text;
use crate::tsutil::js_like_candidates;

verus! {

/// Whether a text holds no slash.
pub open spec fn slashless(s: Text) -> bool {
    forall|i: int| 0 <= i < s.len() ==> #[trigger] s[i] != '/'
}

proof fn lemma_slash(a: Text, b: Text, i: int)
    requires
        0 <= i <= a.len(),
        forall|k: int| i <= k < a.len() ==> #[trigger] a[k] != '/',
    ensures
        slash_from(slashed(a, b), i) == a.len(),
        slash_from(a, i) == a.len(),
    decreases a.len() - i,
{
    let s = slashed(a, b);
    if i < a.len() {
        assert(s[i] == a[i]);
        lemma_slash(a, b, i + 1);
    } else {
        assert(s[i] == '/');
    }
}

/// The name of a package without a scope ends at the first slash of a specifier,
/// and what follows the slash is a path below the package.
pub proof fn plain_names_end_at_the_first_slash(name: Text, sub: Text)
    requires
        slashless(name),
        name.len() > 0,
        name[0] != '@',
    ensures
        package_name(name) == name,
        subpath(name) is None,
        package_name(slashed(name, sub)) == name,
        subpath(slashed(name, sub)) == Some(sub),
{
    lemma_slash(name, sub, 0);
    let s = slashed(name, sub);
    assert(s[0] == name[0]);
    assert(name.take(name.len() as int) =~= name);
    assert(s.take(name.len() as int) =~= name);
    assert(s.skip(1 + name.len() as int) =~= sub);
}

/// The name of a package with a scope ends at the second slash of a specifier,
/// and what follows the slash is a path below the package.
pub proof fn scoped_names_end_at_the_second_slash(scope: Text, name: Text, sub: Text)
    requires
        slashless(scope),
        scope.len() > 0,
        scope[0] == '@',
        slashless(name),
    ensures
        package_name(slashed(scope, name)) == slashed(scope, name),
        subpath(slashed(scope, name)) is None,
        package_name(slashed(slashed(scope, name), sub)) == slashed(scope, name),
        subpath(slashed(slashed(scope, name), sub)) == Some(sub),
{
    let p = slashed(scope, name);
    let s = slashed(p, sub);
    let rest = slashed(name, sub);
    lemma_slash(scope, name, 0);
    assert(s =~= slashed(scope, rest));
    lemma_slash(scope, rest, 0);
    assert forall|k: int| scope.len() + 1 <= k < p.len() implies #[trigger] p[k] != '/' by {
        assert(p[k] == name[k - scope.len() - 1]);
    }
    lemma_slash(p, sub, 1 + scope.len() as int);
    assert(p[0] == '@' && s[0] == '@');
    assert(p.take(p.len() as int) =~= p);
    assert(s.take(p.len() as int) =~= p);
    assert(s.skip(1 + p.len() as int) =~= sub);
}

/// A manifest describes the package of its `name`, whose root is the directory
/// that the manifest lies in, with what it says of `main` and `exports`; one
/// without a name describes none.
pub proof fn manifests_describe_packages(dir: Text, text: Text, json: JsonView)
    requires
        ends_well(dir),
        json_in(text) == Some(json),
    ensures
        match text_member(json, "name"@) {
            Some(name) => package_of(slashed(dir, "package.json"@), text) == Some(
                (
                    name,
                    PackageView { root: dir, main: text_member(json, "main"@), exports: member(json, "exports"@) },
                ),
            ),
            None => package_of(slashed(dir, "package.json"@), text) is None,
        },
{
    reveal_strlit("package.json");
    let file = "package.json"@;
    assert(file[0] == 'p');
    parent_of_entry(dir, file);
    name_of_entry(dir, file);
}

/// The packages of a tree are those that its manifests describe, and of several
/// of one name the last.
pub proof fn the_last_package_of_a_name_counts(list: Seq<(Text, Text)>, name: Text)
    ensures
        packages(list).contains_key(name) <==> exists|k: int|
            0 <= k < list.len() && describes(#[trigger] list[k], name),
        forall|k: int|
            0 <= k < list.len() && describes(#[trigger] list[k], name) && (forall|j: int|
                k < j < list.len() ==> !describes(#[trigger] list[j], name)) ==> package_of(list[k].0, list[k].1)
                == Some((name, packages(list)[name])),
    decreases list.len(),
{
    if list.len() > 0 {
        let front = list.drop_last();
        the_last_package_of_a_name_counts(front, name);
        assert forall|k: int| 0 <= k < front.len() implies #[trigger] list[k] == front[k] by {}
        assert(list[list.len() - 1] == list.last());
        if packages(front).contains_key(name) {
            let k = choose|k: int| 0 <= k < front.len() && describes(#[trigger] front[k], name);
            assert(describes(list[k], name));
        }
        assert forall|k: int|
            0 <= k < list.len() && describes(#[trigger] list[k], name) && (forall|j: int|
                k < j < list.len() ==> !describes(#[trigger] list[j], name)) implies package_of(
            list[k].0,
            list[k].1,
        ) == Some((name, packages(list)[name])) by {
            if k < front.len() {
                assert(!describes(list[list.len() - 1], name));
                assert(describes(front[k], name));
                assert forall|j: int| k < j < front.len() implies !describes(#[trigger] front[j], name) by {
                    assert(!describes(list[j], name));
                }
            }
        }
    }
}

/// Whether a manifest, given by path and text, describes a package of this name.
pub open spec fn describes(manifest: (Text, Text), name: Text) -> bool {
    match package_of(manifest.0, manifest.1) {
        Some((n, _)) => n == name,
        None => false,
    }
}

/// An `exports` field that is a text stands for the package itself and for nothing
/// below it; in one that is a table, a key stands for its text.
pub proof fn exports_are_looked_up(exports: JsonView, key: Text)
    ensures
        match exports {
            JsonView::Text(s) => exported(exports, key) == (if key == seq!['.'] {
                Some(s)
            } else {
                None
            }),
            JsonView::Table(_) => text_member(exports, key) is Some ==> exported(exports, key) == text_member(
                exports,
                key,
            ),
            _ => exported(exports, key) is None,
        },
        exports is Table && member(exports, key) is None ==> exported(exports, key) is None,
{
    reveal_strlit(".");
    assert("."@ =~= seq!['.']);
}

/// Under a key that has a table of conditions, the first of `types`, `import`,
/// `module`, `default` and `require` that has a text counts.
pub proof fn conditions_count_in_order(exports: JsonView, key: Text, under: JsonView)
    requires
        exports is Table,
        member(exports, key) == Some(under),
        under is Table,
    ensures
        exported(exports, key) == match text_member(under, "types"@) {
            Some(s) => Some(s),
            None => match text_member(under, "import"@) {
                Some(s) => Some(s),
                None => match text_member(under, "module"@) {
                    Some(s) => Some(s),
                    None => match text_member(under, "default"@) {
                        Some(s) => Some(s),
                        None => text_member(under, "require"@),
                    },
                },
            },
        },
{
    reveal_with_fuel(first_text, 6);
    let c = conditions();
    assert(c[0] == "types"@ && c[1] == "import"@ && c[2] == "module"@ && c[3] == "default"@ && c[4] == "require"@);
    assert(c.skip(1)[0] == c[1]);
    assert(c.skip(1).skip(1)[0] == c[2]);
    assert(c.skip(1).skip(1).skip(1)[0] == c[3]);
    assert(c.skip(1).skip(1).skip(1).skip(1)[0] == c[4]);
    assert(c.skip(1).skip(1).skip(1).skip(1).skip(1).len() == 0);
}

/// Whether a path starts neither with a slash nor with `./`.
pub open spec fn starts_plainly(path: Text) -> bool {
    path.len() > 0 && path[0] != '/' && !(path.len() > 1 && path[0] == '.' && path[1] == '/')
}

proof fn lemma_exported_path(p: PackageView, key: Text, path: Text)
    requires
        p.root.len() > 0,
        p.root.last() != '/',
        starts_plainly(path),
        p.exports is Some,
        exported(p.exports->0, key) == Some(path) || exported(p.exports->0, key) == Some(seq!['.', '/'] + path),
    ensures
        export_candidates(p, key) == js_like_candidates(slashed(p.root, path)),
{
    let dotted = seq!['.', '/'] + path;
    assert(dotted.skip(2) =~= path);
    reveal_with_fuel(without_here, 2);
    assert(without_here(path) == path);
    assert(without_here(dotted) == path);
    joined_with_a_slash(p.root, path);
}

/// What is found of a list of places to look at, one after the other.
pub open spec fn found_in(disk: Map<Text, Option<Text>>, places: Seq<Text>) -> Option<Text>
    decreases places.len(),
{
    if places.len() == 0 {
        None
    } else {
        match first_file(disk, js_like_candidates(places[0])) {
            Some(file) => Some(file),
            None => found_in(disk, places.skip(1)),
        }
    }
}

/// A package stands for what it exports as itself, with or without `./` in front;
/// or else for its main file; or else for the index of its root, or of its `src`.
pub proof fn a_package_stands_for_its_entry(
    disk: Map<Text, Option<Text>>,
    p: PackageView,
    path: Text,
    main: Text,
)
    requires
        p.root.len() > 0,
        p.root.last() != '/',
        p.exports is Some && exported(p.exports->0, seq!['.']) is Some ==> starts_plainly(path) && (exported(
            p.exports->0,
            seq!['.'],
        ) == Some(path) || exported(p.exports->0, seq!['.']) == Some(seq!['.', '/'] + path)),
        p.main is Some ==> p.main == Some(main) && main.len() > 0 && main[0] != '/',
    ensures
        ({
            let by_exports = if p.exports is Some && exported(p.exports->0, seq!['.']) is Some {
                seq![slashed(p.root, path)]
            } else {
                Seq::empty()
            };
            let by_main = if p.main is Some {
                seq![slashed(p.root, main)]
            } else {
                Seq::empty()
            };
            first_file(disk, entry_candidates(p)) == found_in(
                disk,
                by_exports + by_main + seq![p.root, slashed(p.root, "src"@)],
            )
        }),
{
    reveal_strlit(".");
    reveal_strlit("src");
    assert("."@ =~= seq!['.']);
    reveal_with_fuel(found_in, 5);
    let e = export_candidates(p, "."@);
    let m = match p.main {
        Some(path) => js_like_candidates(crate::path::join(p.root, path)),
        None => Seq::empty(),
    };
    let r = js_like_candidates(p.root);
    let s = js_like_candidates(crate::path::join(p.root, "src"@));
    assert(entry_candidates(p) == e + m + r + s);
    first_file_of_both(disk, e + m + r, s);
    first_file_of_both(disk, e + m, r);
    first_file_of_both(disk, e, m);
    joined_with_a_slash(p.root, "src"@);
    if p.main is Some {
        joined_with_a_slash(p.root, main);
    }
    if p.exports is Some && exported(p.exports->0, seq!['.']) is Some {
        lemma_exported_path(p, "."@, path);
    }
    let by_exports = if p.exports is Some && exported(p.exports->0, seq!['.']) is Some {
        seq![slashed(p.root, path)]
    } else {
        Seq::empty()
    };
    let by_main = if p.main is Some {
        seq![slashed(p.root, main)]
    } else {
        Seq::empty()
    };
    let last = seq![p.root, slashed(p.root, "src"@)];
    let all = by_exports + by_main + last;
    if by_exports.len() == 1 {
        assert(all[0] == slashed(p.root, path));
        assert(all.skip(1) =~= by_main + last);
    } else {
        assert(all =~= by_main + last);
    }
    if by_main.len() == 1 {
        assert((by_main + last)[0] == slashed(p.root, main));
        assert((by_main + last).skip(1) =~= last);
    } else {
        assert(by_main + last =~= last);
    }
    assert(last.skip(1) =~= seq![slashed(p.root, "src"@)]);
    assert(seq![slashed(p.root, "src"@)].skip(1) =~= Seq::<Text>::empty());
}

/// A path below a package stands for what the package exports under it, behind
/// `./`; or else for what lies there.
pub proof fn a_path_below_a_package_stands_for_its_file(
    disk: Map<Text, Option<Text>>,
    p: PackageView,
    sub: Text,
    path: Text,
)
    requires
        p.root.len() > 0,
        p.root.last() != '/',
        sub.len() > 0,
        sub[0] != '/',
        p.exports is Some && exported(p.exports->0, seq!['.', '/'] + sub) is Some ==> starts_plainly(path) && (
        exported(p.exports->0, seq!['.', '/'] + sub) == Some(path) || exported(p.exports->0, seq!['.', '/'] + sub)
            == Some(seq!['.', '/'] + path)),
    ensures
        first_file(disk, subpath_candidates(p, sub)) == (if p.exports is Some && exported(
            p.exports->0,
            seq!['.', '/'] + sub,
        ) is Some && first_file(disk, js_like_candidates(slashed(p.root, path))) is Some {
            first_file(disk, js_like_candidates(slashed(p.root, path)))
        } else {
            first_file(disk, js_like_candidates(slashed(p.root, sub)))
        }),
{
    reveal_strlit("./");
    assert("./"@ =~= seq!['.', '/']);
    let key = "./"@ + sub;
    first_file_of_both(disk, export_candidates(p, key), js_like_candidates(crate::path::join(p.root, sub)));
    joined_with_a_slash(p.root, sub);
    if p.exports is Some && exported(p.exports->0, key) is Some {
        lemma_exported_path(p, key, path);
    }
}

/// The name of a known package stands for the package, and with a path behind it
/// for the path below the package; an unknown one stands for nothing.
pub proof fn names_stand_for_packages(index: Map<Text, PackageView>, spec: Text)
    ensures
        index.contains_key(package_name(spec)) && subpath(spec) is None ==> package_candidates(index, spec)
            == entry_candidates(index[package_name(spec)]),
        index.contains_key(package_name(spec)) && subpath(spec) is Some ==> package_candidates(index, spec)
            == subpath_candidates(index[package_name(spec)], subpath(spec)->0),
        !index.contains_key(package_name(spec)) ==> package_candidates(index, spec).len() == 0,
{
}

/// A table has under a key what its first entry with that key holds.
pub proof fn the_first_entry_of_a_key_counts(entries: Seq<(Text, JsonView)>, key: Text, k: int)
    requires
        0 <= k < entries.len(),
        entries[k].0 == key,
        forall|j: int| 0 <= j < k ==> (#[trigger] entries[j]).0 != key,
    ensures
        member(JsonView::Table(entries), key) == Some(entries[k].1),
    decreases k,
{
    if k > 0 {
        assert(entries[0].0 != key);
        let rest = entries.skip(1);
        assert(rest[k - 1] == entries[k]);
        assert forall|j: int| 0 <= j < k - 1 implies (#[trigger] rest[j]).0 != key by {
            assert(rest[j] == entries[j + 1]);
        }
        the_first_entry_of_a_key_counts(rest, key, k - 1);
        assert(entry(entries, key) == entry(rest, key));
    }
}

/// A text stands under a key where the value there is a text, whatever the text,
/// and nowhere else; nothing stands under the keys of what is no table.
pub proof fn only_texts_are_read_as_texts(j: JsonView, key: Text, s: Text)
    ensures
        text_member(j, key) == Some(s) <==> member(j, key) == Some(JsonView::Text(s)),
        !(j is Table) ==> member(j, key) is None && text_member(j, key) is None,
{
}

/// What an `exports` field gives is taken from the package, with or without `./` in
/// front of it.
pub proof fn a_dot_and_a_slash_go(s: Text)
    ensures
        without_here(seq!['.', '/'] + s) == without_here(s),
        !seq!['.', '/'].is_prefix_of(s) ==> without_here(s) == s,
{
    let more = seq!['.', '/'] + s;
    assert(more[0] == '.' && more[1] == '/');
    assert(more.skip(2) =~= s);
    if s.len() >= 2 && s[0] == '.' && s[1] == '/' {
        assert(seq!['.', '/'] =~= s.subrange(0, 2));
    }
}

} // verus!
