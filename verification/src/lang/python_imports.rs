//! Where the imports of Python modules lead.
use vstd::prelude::*;

use crate::disk::first_file;
use crate::facts::{Target, Wanted};
use crate::lang::python::{
    climbed, defined, descended, dotted_name, from_import, import_base, import_targets, imported_names,
    last_listed, leading_dots, listed, module_facts, module_of, module_target, node_imports, string_list,
    ImportView, ModuleView,
};
use crate::lists::{
    lemma_from_filter_map, lemma_from_flat_map, lemma_in_filter_map, lemma_in_flat_map, lemma_one_more,
};
use crate::path::{join, parent};
use crate::placing::{
    ends_well, entries_end_well, file_below_the_root, is_name, is_proper, joined_with_a_slash, parent_of_entry,
    slashed, strung, strung_behind, strung_names_are_proper,
};
use crate::syntax::{children, every_node_is_visited_once, is_preorder, top_level, visits, NodeView};
use crate::text::{has_end, replace_char, split, Text};
use crate::tsutil::{field_child, field_children, in_field, kind_child, kind_children, literal, of_kind, text_of};

verus! {

/// Whether some texts are the names of a dotted module.
pub open spec fn is_dotted(parts: Seq<Text>) -> bool {
    &&& parts.len() > 0
    &&& forall|i: int| 0 <= i < parts.len() ==> is_module_name(#[trigger] parts[i])
}

/// Whether a text can be one name of a dotted module.
pub open spec fn is_module_name(s: Text) -> bool {
    &&& s.len() > 0
    &&& forall|i: int| 0 <= i < s.len() ==> #[trigger] s[i] != '.' && s[i] != '/'
}

/// So many dots.
pub open spec fn dots(n: nat) -> Text {
    Seq::new(n, |i: int| '.')
}

/// The directory that names lead down to from another.
pub open spec fn down(dir: Text, parts: Seq<Text>) -> Text {
    if parts.len() == 0 {
        dir
    } else {
        slashed(dir, strung(parts, '/'))
    }
}

/// Whether an absolute module `p1.p2..` lies at `root/p1/p2..`.
pub open spec fn absolute_at(root: Text, module: Text, base: Text, parts: Seq<Text>) -> bool {
    &&& is_dotted(parts)
    &&& module == strung(parts, '.')
    &&& base == slashed(root, strung(parts, '/'))
}

/// Whether a relative module lies at `top/p1/p2..`: it has one dot and one more
/// for each of the names that lead from `top` to the directory of the importing
/// file, and then the names `p1.p2..`, if any.
pub open spec fn relative_at(
    dir: Text,
    module: Text,
    base: Text,
    top: Text,
    steps: Seq<Text>,
    parts: Seq<Text>,
) -> bool {
    &&& ends_well(top)
    &&& forall|i: int| 0 <= i < steps.len() ==> is_name(#[trigger] steps[i])
    &&& dir == down(top, steps)
    &&& parts.len() == 0 || is_dotted(parts)
    &&& module == dots((steps.len() + 1) as nat) + strung(parts, '.')
    &&& base == down(top, parts)
}

/// Whether a module that a file in `dir` imports from lies at `base`.
pub open spec fn lies_at(root: Text, dir: Text, module: Text, relative: bool, base: Text) -> bool {
    &&& ends_well(base)
    &&& if relative {
        exists|top: Text, steps: Seq<Text>, parts: Seq<Text>| #[trigger]
            relative_at(dir, module, base, top, steps, parts)
    } else {
        exists|parts: Seq<Text>| #[trigger] absolute_at(root, module, base, parts)
    }
}

/// Whether a file is known as `rest`: its canonical path is the root, a slash and
/// `rest`.
pub open spec fn known_below(disk: Map<Text, Option<Text>>, root: Text, file: Text, rest: Text) -> bool {
    &&& is_proper(rest)
    &&& forall|i: int| 0 <= i < rest.len() ==> #[trigger] rest[i] != '\\'
    &&& disk.contains_key(file)
    &&& disk[file] == Some(slashed(root, rest))
}

/// The file that a package is.
pub open spec fn package_file(base: Text) -> Text {
    slashed(base, "__init__.py"@)
}

/// The file that a module is that is no package.
pub open spec fn module_file(base: Text) -> Text {
    base + seq!['.', 'p', 'y']
}

/// Whether a module at `base` is the file `file`: the package if there is one,
/// and otherwise the file of its name.
pub open spec fn module_is(disk: Map<Text, Option<Text>>, base: Text, file: Text) -> bool {
    ||| file == package_file(base) && disk.contains_key(file)
    ||| file == module_file(base) && disk.contains_key(file) && !disk.contains_key(package_file(base))
}

/// Whether a name of a module at `base` is the file `file` of a module of its
/// own: the file of its name if there is one, and otherwise a package.
pub open spec fn submodule_is(disk: Map<Text, Option<Text>>, base: Text, name: Text, file: Text) -> bool {
    ||| file == module_file(slashed(base, name)) && disk.contains_key(file)
    ||| file == package_file(slashed(base, name)) && disk.contains_key(file) && !disk.contains_key(
        module_file(slashed(base, name)),
    )
}

proof fn lemma_dots(n: nat, rest: Text)
    requires
        rest.len() == 0 || rest[0] != '.',
    ensures
        leading_dots(dots(n) + rest) == n,
        (dots(n) + rest).skip(n as int) == rest,
    decreases n,
{
    let s = dots(n) + rest;
    assert(s.skip(n as int) =~= rest);
    if n > 0 {
        assert(s[0] == '.');
        assert(s.skip(1) =~= dots((n - 1) as nat) + rest);
        lemma_dots((n - 1) as nat, rest);
    } else {
        assert(s =~= rest);
    }
}

proof fn lemma_slashes_for_dots(parts: Seq<Text>)
    requires
        is_dotted(parts),
    ensures
        replace_char(strung(parts, '.'), '.', '/') == strung(parts, '/'),
        strung(parts, '.').len() > 0,
        strung(parts, '.')[0] != '.',
        strung(parts, '.')[0] != '/',
        strung(parts, '/').len() > 0,
        strung(parts, '/')[0] != '/',
        strung(parts, '/').last() != '/',
    decreases parts.len(),
{
    assert(is_module_name(parts[0]));
    let last = parts[parts.len() - 1];
    assert(is_module_name(last));
    assert(replace_char(last, '.', '/') =~= last);
    if parts.len() > 1 {
        let front = parts.drop_last();
        assert forall|i: int| 0 <= i < front.len() implies is_module_name(#[trigger] front[i]) by {
            assert(front[i] == parts[i]);
        }
        lemma_slashes_for_dots(front);
        assert(replace_char(strung(parts, '.'), '.', '/') =~= replace_char(strung(front, '.'), '.', '/') + seq![
            '/',
        ] + replace_char(last, '.', '/'));
        assert(strung(parts, '.')[0] == strung(front, '.')[0]);
        assert(strung(parts, '/')[0] == strung(front, '/')[0]);
        assert(strung(parts, '/').last() == last.last());
    } else {
        assert(parts[0] == last);
    }
}

proof fn lemma_split_behind(a: Text, b: Text, sep: char)
    requires
        forall|i: int| 0 <= i < b.len() ==> #[trigger] b[i] != sep,
    ensures
        split(a + seq![sep] + b, sep) == split(a, sep).push(b),
    decreases b.len(),
{
    let s = a + seq![sep] + b;
    if b.len() == 0 {
        assert(s.drop_last() =~= a);
        assert(s.last() == sep);
        assert(b =~= Seq::<char>::empty());
    } else {
        let c = b.drop_last();
        assert(s.drop_last() =~= a + seq![sep] + c);
        assert(s.last() == b.last());
        assert forall|i: int| 0 <= i < c.len() implies #[trigger] c[i] != sep by {
            assert(c[i] == b[i]);
        }
        lemma_split_behind(a, c, sep);
        let before = split(a, sep).push(c);
        assert(before.drop_last() =~= split(a, sep));
        assert(before.last().push(b.last()) =~= b);
    }
}

proof fn lemma_split_one(b: Text, sep: char)
    requires
        forall|i: int| 0 <= i < b.len() ==> #[trigger] b[i] != sep,
    ensures
        split(b, sep) == seq![b],
    decreases b.len(),
{
    if b.len() == 0 {
        assert(b =~= Seq::<char>::empty());
    } else {
        let c = b.drop_last();
        assert forall|i: int| 0 <= i < c.len() implies #[trigger] c[i] != sep by {
            assert(c[i] == b[i]);
        }
        lemma_split_one(c, sep);
        assert(b.last() == b[b.len() - 1]);
        assert(seq![c].drop_last().push(seq![c].last().push(b.last())) =~= seq![b]) by {
            assert(c.push(b.last()) =~= b);
        }
    }
}

proof fn lemma_split_strung(parts: Seq<Text>)
    requires
        is_dotted(parts),
    ensures
        split(strung(parts, '.'), '.') == parts,
    decreases parts.len(),
{
    let last = parts[parts.len() - 1];
    assert(is_module_name(last));
    if parts.len() == 1 {
        lemma_split_one(last, '.');
        assert(seq![last] =~= parts);
    } else {
        let front = parts.drop_last();
        assert forall|i: int| 0 <= i < front.len() implies is_module_name(#[trigger] front[i]) by {
            assert(front[i] == parts[i]);
        }
        lemma_split_strung(front);
        lemma_split_behind(strung(front, '.'), last, '.');
        assert(front.push(last) =~= parts);
    }
}

proof fn lemma_descended(dir: Text, parts: Seq<Text>)
    requires
        dir.len() > 0,
        dir.last() != '/',
        is_dotted(parts),
    ensures
        descended(dir, parts) == slashed(dir, strung(parts, '/')),
    decreases parts.len(),
{
    let last = parts[parts.len() - 1];
    let front = parts.drop_last();
    assert(is_module_name(last));
    lemma_slashes_for_dots(parts);
    if parts.len() == 1 {
        assert(descended(dir, front) == dir);
        joined_with_a_slash(dir, last);
    } else {
        assert forall|i: int| 0 <= i < front.len() implies is_module_name(#[trigger] front[i]) by {
            assert(front[i] == parts[i]);
        }
        lemma_descended(dir, front);
        lemma_slashes_for_dots(front);
        let d = slashed(dir, strung(front, '/'));
        assert(d.last() == strung(front, '/').last());
        joined_with_a_slash(d, last);
        strung_behind(dir, parts);
    }
}

proof fn lemma_climbed(top: Text, steps: Seq<Text>)
    requires
        ends_well(top),
        forall|i: int| 0 <= i < steps.len() ==> is_name(#[trigger] steps[i]),
    ensures
        climbed(down(top, steps), steps.len()) == Some(top),
    decreases steps.len(),
{
    if steps.len() > 0 {
        let front = steps.drop_last();
        let last = steps[steps.len() - 1];
        assert(is_name(last));
        assert forall|i: int| 0 <= i < front.len() implies is_name(#[trigger] front[i]) by {
            assert(front[i] == steps[i]);
        }
        lemma_climbed(top, front);
        if front.len() == 0 {
            assert(down(top, steps) == slashed(top, last));
            parent_of_entry(top, last);
        } else {
            strung_behind(top, steps);
            let above = slashed(top, strung(front, '/'));
            strung_names_are_proper(front);
            assert(ends_well(above)) by {
                let f = strung(front, '/');
                assert(above.last() == f.last());
                if f.len() > 1 {
                    assert(above[above.len() - 2] == f[f.len() - 2]);
                }
            }
            parent_of_entry(above, last);
        }
    }
}

proof fn lemma_base(root: Text, dir: Text, module: Text, relative: bool, base: Text)
    requires
        root.len() > 0,
        root.last() != '/',
        lies_at(root, dir, module, relative, base),
    ensures
        import_base(root, dir, module, relative) == Some(base),
{
    if relative {
        let (top, steps, parts) = choose|top: Text, steps: Seq<Text>, parts: Seq<Text>| #[trigger]
            relative_at(dir, module, base, top, steps, parts);
        let rest = strung(parts, '.');
        if parts.len() > 0 {
            lemma_slashes_for_dots(parts);
            lemma_split_strung(parts);
            lemma_descended(top, parts);
        }
        lemma_dots((steps.len() + 1) as nat, rest);
        lemma_climbed(top, steps);
    } else {
        let parts = choose|parts: Seq<Text>| #[trigger] absolute_at(root, module, base, parts);
        lemma_slashes_for_dots(parts);
        joined_with_a_slash(root, strung(parts, '/'));
    }
}

proof fn lemma_two(disk: Map<Text, Option<Text>>, a: Text, b: Text)
    ensures
        first_file(disk, seq![a, b]) == (if disk.contains_key(a) {
            Some(a)
        } else if disk.contains_key(b) {
            Some(b)
        } else {
            None
        }),
{
    reveal_with_fuel(first_file, 3);
    assert(seq![a, b].drop_last() =~= seq![a]);
    assert(seq![a].drop_last() =~= Seq::<Text>::empty());
}

proof fn lemma_files(base: Text)
    requires
        ends_well(base),
    ensures
        join(base, "__init__.py"@) == package_file(base),
        base + ".py"@ == module_file(base),
{
    reveal_strlit("__init__.py");
    reveal_strlit(".py");
    joined_with_a_slash(base, "__init__.py"@);
    assert(".py"@ =~= seq!['.', 'p', 'y']);
}

proof fn lemma_sub_files(base: Text, name: Text)
    requires
        ends_well(base),
        is_name(name),
    ensures
        join(base, name + ".py"@) == module_file(slashed(base, name)),
        join(join(base, name), "__init__.py"@) == package_file(slashed(base, name)),
{
    reveal_strlit(".py");
    let file = name + ".py"@;
    assert(file[0] == name[0]);
    joined_with_a_slash(base, file);
    assert(slashed(base, file) =~= slashed(base, name) + seq!['.', 'p', 'y']);
    joined_with_a_slash(base, name);
    entries_end_well(base, name);
    lemma_files(slashed(base, name));
}

proof fn lemma_module_target(disk: Map<Text, Option<Text>>, root: Text, base: Text, name: Text, file: Text, rest: Text)
    requires
        root.len() > 0,
        ends_well(base),
        module_is(disk, base, file),
        known_below(disk, root, file, rest),
    ensures
        module_target(disk, root, base, name) == Target::Internal(rest),
{
    lemma_files(base);
    lemma_two(disk, package_file(base), module_file(base));
    file_below_the_root(disk, root, file, rest);
}

/// `import p1.p2..` leads to the module at `root/p1/p2..`.
pub proof fn imported_module_is_found(
    disk: Map<Text, Option<Text>>,
    root: Text,
    dir: Text,
    parts: Seq<Text>,
    file: Text,
    rest: Text,
)
    requires
        root.len() > 0,
        root.last() != '/',
        is_dotted(parts),
        module_is(disk, slashed(root, strung(parts, '/')), file),
        known_below(disk, root, file, rest),
    ensures
        import_targets(disk, root, dir)(ImportView::Module(strung(parts, '.'))) == seq![Target::Internal(rest)],
{
    let base = slashed(root, strung(parts, '/'));
    lemma_slashes_for_dots(parts);
    joined_with_a_slash(root, strung(parts, '/'));
    lemma_dotted_ends_well(root, parts);
    lemma_module_target(disk, root, base, strung(parts, '.'), file, rest);
}

proof fn lemma_dotted_ends_well(root: Text, parts: Seq<Text>)
    requires
        is_dotted(parts),
    ensures
        ends_well(slashed(root, strung(parts, '/'))),
{
    assert forall|i: int| 0 <= i < parts.len() implies is_name(#[trigger] parts[i]) by {
        assert(is_module_name(parts[i]));
        if parts[i] == seq!['.'] {
            assert(parts[i][0] == '.');
        }
    }
    strung_names_are_proper(parts);
    let f = strung(parts, '/');
    let s = slashed(root, f);
    assert(s.last() == f.last());
    if f.len() > 1 {
        assert(s[s.len() - 2] == f[f.len() - 2]);
    }
}

/// `import p1.p2..` of what is no module stays as it is written.
pub proof fn unknown_module_stays_as_it_is(
    disk: Map<Text, Option<Text>>,
    root: Text,
    dir: Text,
    parts: Seq<Text>,
)
    requires
        root.len() > 0,
        root.last() != '/',
        is_dotted(parts),
        !disk.contains_key(package_file(slashed(root, strung(parts, '/')))),
        !disk.contains_key(module_file(slashed(root, strung(parts, '/')))),
    ensures
        import_targets(disk, root, dir)(ImportView::Module(strung(parts, '.'))) == seq![
            Target::External(strung(parts, '.')),
        ],
{
    let base = slashed(root, strung(parts, '/'));
    lemma_slashes_for_dots(parts);
    joined_with_a_slash(root, strung(parts, '/'));
    lemma_dotted_ends_well(root, parts);
    lemma_files(base);
    lemma_two(disk, package_file(base), module_file(base));
}

/// `from m import n` leads to the module `n` of the package `m`, where there is
/// one.
pub proof fn imported_submodule_is_found(
    disk: Map<Text, Option<Text>>,
    root: Text,
    dir: Text,
    module: Text,
    relative: bool,
    names: Seq<Text>,
    k: int,
    base: Text,
    file: Text,
    rest: Text,
)
    requires
        root.len() > 0,
        root.last() != '/',
        lies_at(root, dir, module, relative, base),
        0 <= k < names.len(),
        is_name(names[k]),
        submodule_is(disk, base, names[k], file),
        known_below(disk, root, file, rest),
    ensures
        import_targets(disk, root, dir)((ImportView::From { module, relative, names })).len() == names.len(),
        import_targets(disk, root, dir)((ImportView::From { module, relative, names }))[k] == Target::Internal(rest),
{
    lemma_base(root, dir, module, relative, base);
    lemma_sub_files(base, names[k]);
    lemma_two(disk, module_file(slashed(base, names[k])), package_file(slashed(base, names[k])));
    file_below_the_root(disk, root, file, rest);
}

/// `from m import n` leads to the module `m`, where `n` is no module of its own,
/// and `from m import *` always does.
pub proof fn imported_name_leads_to_its_module(
    disk: Map<Text, Option<Text>>,
    root: Text,
    dir: Text,
    module: Text,
    relative: bool,
    names: Seq<Text>,
    k: int,
    base: Text,
    file: Text,
    rest: Text,
)
    requires
        root.len() > 0,
        root.last() != '/',
        lies_at(root, dir, module, relative, base),
        module_is(disk, base, file),
        known_below(disk, root, file, rest),
    ensures
        import_targets(disk, root, dir)((ImportView::From { module, relative, names: Seq::empty() })) == seq![
            Target::Internal(rest),
        ],
        0 <= k < names.len() && is_name(names[k]) && !disk.contains_key(module_file(slashed(base, names[k])))
            && !disk.contains_key(package_file(slashed(base, names[k]))) ==> import_targets(disk, root, dir)(
            (ImportView::From { module, relative, names }),
        )[k] == Target::Internal(rest),
{
    lemma_base(root, dir, module, relative, base);
    lemma_module_target(disk, root, base, module, file, rest);
    if 0 <= k < names.len() && is_name(names[k]) {
        lemma_sub_files(base, names[k]);
        lemma_two(disk, module_file(slashed(base, names[k])), package_file(slashed(base, names[k])));
        lemma_module_target(disk, root, base, module + "."@ + names[k], file, rest);
    }
}

/// `from m import n`, where neither is a module, stays as `m.n`.
pub proof fn unknown_name_stays_as_it_is(
    disk: Map<Text, Option<Text>>,
    root: Text,
    dir: Text,
    module: Text,
    relative: bool,
    names: Seq<Text>,
    k: int,
    base: Text,
)
    requires
        root.len() > 0,
        root.last() != '/',
        lies_at(root, dir, module, relative, base),
        0 <= k < names.len(),
        is_name(names[k]),
        !disk.contains_key(package_file(base)),
        !disk.contains_key(module_file(base)),
        !disk.contains_key(module_file(slashed(base, names[k]))),
        !disk.contains_key(package_file(slashed(base, names[k]))),
    ensures
        import_targets(disk, root, dir)((ImportView::From { module, relative, names }))[k] == Target::External(
            module + seq!['.'] + names[k],
        ),
{
    reveal_strlit(".");
    lemma_base(root, dir, module, relative, base);
    lemma_sub_files(base, names[k]);
    lemma_two(disk, module_file(slashed(base, names[k])), package_file(slashed(base, names[k])));
    lemma_files(base);
    lemma_two(disk, package_file(base), module_file(base));
    assert(module + "."@ + names[k] =~= module + seq!['.'] + names[k]);
}

/// A module depends on what each of its imports leads to, wholly. It re-exports
/// where its file is an `__init__.py` that imports at its top level.
pub proof fn modules_depend_on_their_imports(
    module: ModuleView,
    disk: Map<Text, Option<Text>>,
    root: Text,
    dir: Text,
    rel: Text,
    i: int,
    target: Target,
)
    requires
        0 <= i < module.imports.len(),
        import_targets(disk, root, dir)(module.imports[i]).contains(target),
    ensures
        exists|k: int|
            0 <= k < module_facts(module, disk, root, dir, rel).dependencies.len() && (#[trigger] module_facts(
                module,
                disk,
                root,
                dir,
                rel,
            ).dependencies[k]).target == target && module_facts(module, disk, root, dir, rel).dependencies[k].want
                == Wanted::All,
{
    let f = import_targets(disk, root, dir);
    let all = module.imports.flat_map(f);
    lemma_in_flat_map(module.imports, f, i, target);
    let k = choose|k: int| 0 <= k < all.len() && all[k] == target;
    assert(module_facts(module, disk, root, dir, rel).dependencies[k].target == target);
}

/// Only a file whose name ends in `__init__.py` re-exports, and only where it
/// imports at its top level; every other module counts as having exports of its
/// own exactly where it names one.
pub proof fn only_packages_reexport(
    module: ModuleView,
    disk: Map<Text, Option<Text>>,
    root: Text,
    dir: Text,
    rel: Text,
    before: Text,
)
    ensures
        module_facts(module, disk, root, dir, before + "__init__.py"@).has_reexports == module.imports_at_top,
        (forall|a: Text| rel != #[trigger] (a + "__init__.py"@)) ==> !module_facts(
            module,
            disk,
            root,
            dir,
            rel,
        ).has_reexports,
        module_facts(module, disk, root, dir, rel).has_local_exports == module.names_exports,
        module_facts(module, disk, root, dir, rel).exports == module.exports,
{
    let end = "__init__.py"@;
    let s = before + end;
    assert(s.skip(s.len() - end.len()) =~= end);
    if has_end(rel, end) {
        let a = rel.take(rel.len() - end.len());
        assert(rel =~= a + end);
    }
}

/// Whether a node is in a field of another.
pub open spec fn is_child_in(t: Seq<NodeView>, node: int, field: Text, c: int) -> bool {
    children(t, node).contains(c) && t[c].field == Some(field)
}

proof fn lemma_named_child(t: Seq<NodeView>, src: Text, node: int, c: int, name: Text)
    requires
        is_child_in(t, node, "name"@, c),
        crate::lang::python::dotted(t, src, c) == Some(name),
    ensures
        imported_names(t, src, node).contains(name),
{
    let all = children(t, node);
    let f = in_field(t, "name"@);
    let k = choose|k: int| 0 <= k < all.len() && all[k] == c;
    all.lemma_filter_contains(f, k);
    let named = field_children(t, node, "name"@);
    let j = choose|j: int| 0 <= j < named.len() && named[j] == c;
    lemma_in_filter_map(named, dotted_name(t, src), j);
}

/// A dotted name stands for its text, and an alias for the name it is given to.
pub proof fn aliases_stand_for_their_names(t: Seq<NodeView>, src: Text, node: int, inner: int)
    requires
        0 <= node < t.len(),
    ensures
        t[node].kind == "dotted_name"@ ==> crate::lang::python::dotted(t, src, node) == Some(
            text_of(t, src, node),
        ),
        t[node].kind == "aliased_import"@ && field_child(t, node, "name"@) == Some(inner) && 0 <= inner < t.len()
            && t[inner].kind == "dotted_name"@ ==> crate::lang::python::dotted(t, src, node) == Some(
            text_of(t, src, inner),
        ),
{
    reveal_strlit("dotted_name");
    reveal_strlit("aliased_import");
    reveal_with_fuel(crate::lang::python::dotted, 2);
    if t[node].kind == "aliased_import"@ {
        assert(t[node].kind != "dotted_name"@) by {
            assert(t[node].kind[0] == 'a');
        }
    }
}

/// Every name of an import statement, wherever it stands, is imported as a
/// module.
pub proof fn import_statements_are_taken(t: Seq<NodeView>, src: Text, node: int, c: int, name: Text)
    requires
        is_preorder(t),
        0 <= node < t.len(),
        t[node].kind == "import_statement"@,
        is_child_in(t, node, "name"@, c),
        crate::lang::python::dotted(t, src, c) == Some(name),
    ensures
        module_of(t, src).imports.contains(ImportView::Module(name)),
{
    lemma_named_child(t, src, node, c, name);
    let names = imported_names(t, src, node);
    let f = |m: Text| ImportView::Module(m);
    let k = choose|k: int| 0 <= k < names.len() && names[k] == name;
    assert(names.map_values(f)[k] == ImportView::Module(name));
    assert(node_imports(t, src)(node).contains(ImportView::Module(name)));
    lemma_visited(t, src, node, ImportView::Module(name));
}

proof fn lemma_visited(t: Seq<NodeView>, src: Text, node: int, i: ImportView)
    requires
        is_preorder(t),
        0 <= node < t.len(),
        node_imports(t, src)(node).contains(i),
    ensures
        module_of(t, src).imports.contains(i),
{
    every_node_is_visited_once(t);
    let all = visits(t);
    assert(all.contains(node));
    let k = choose|k: int| 0 <= k < all.len() && all[k] == node;
    lemma_in_flat_map(all, node_imports(t, src), k, i);
}

/// Every `from` statement, wherever it stands, imports from its module: the names
/// that it lists, or none in particular where it has a star. A module that is
/// written with leading dots is relative.
pub proof fn from_statements_are_taken(t: Seq<NodeView>, src: Text, node: int, m: int, c: int, name: Text)
    requires
        is_preorder(t),
        0 <= node < t.len(),
        t[node].kind == "import_from_statement"@,
        field_child(t, node, "module_name"@) == Some(m),
        t[m].kind == "dotted_name"@ || t[m].kind == "relative_import"@,
    ensures
        exists|i: ImportView|
            {
                &&& #[trigger] module_of(t, src).imports.contains(i)
                &&& i is From
                &&& i->From_module == text_of(t, src, m)
                &&& i->From_relative == (t[m].kind == "relative_import"@)
                &&& kind_child(t, node, "wildcard_import"@) is Some ==> i->From_names.len() == 0
                &&& kind_child(t, node, "wildcard_import"@) is None && is_child_in(t, node, "name"@, c)
                    && crate::lang::python::dotted(t, src, c) == Some(name) ==> i->From_names.contains(name)
            },
{
    reveal_strlit("dotted_name");
    reveal_strlit("relative_import");
    reveal_strlit("import_statement");
    reveal_strlit("import_from_statement");
    if t[m].kind == "dotted_name"@ {
        assert(t[m].kind[0] == 'd');
    }
    assert(t[node].kind != "import_statement"@) by {
        assert(t[node].kind.len() == 21);
    }
    let i = from_import(t, src, node)->0;
    assert(from_import(t, src, node) is Some);
    assert(node_imports(t, src)(node) == seq![i]);
    assert(seq![i][0] == i);
    lemma_visited(t, src, node, i);
    if kind_child(t, node, "wildcard_import"@) is None && is_child_in(t, node, "name"@, c)
        && crate::lang::python::dotted(t, src, c) == Some(name) {
        lemma_named_child(t, src, node, c, name);
    }
}

/// The names of functions and classes at the top level of a module, and of
/// variables there that do not start with an underscore, are exported where no
/// `__all__` says otherwise.
pub proof fn top_level_names_are_exported(t: Seq<NodeView>, src: Text, k: int, a: int, left: int)
    requires
        last_listed(t, src, top_level(t)) is None,
        0 <= k < top_level(t).len(),
    ensures
        ({
            let c = top_level(t)[k];
            let exports = module_of(t, src).exports;
            &&& (t[c].kind == "function_definition"@ || t[c].kind == "class_definition"@) && field_child(
                t,
                c,
                "name"@,
            ) is Some ==> exports.contains(text_of(t, src, field_child(t, c, "name"@)->0))
                && module_of(t, src).names_exports
            &&& t[c].kind == "expression_statement"@ && kind_child(t, c, "assignment"@) == Some(a) && field_child(
                t,
                a,
                "left"@,
            ) == Some(left) && t[left].kind == "identifier"@ && text_of(t, src, left).len() > 0 && text_of(
                t,
                src,
                left,
            )[0] != '_' ==> exports.contains(text_of(t, src, left)) && module_of(t, src).names_exports
        }),
{
    reveal_strlit("function_definition");
    reveal_strlit("class_definition");
    reveal_strlit("expression_statement");
    reveal_strlit("__all__");
    let c = top_level(t)[k];
    let f = defined(t, src);
    let names = top_level(t).filter_map(f);
    if t[c].kind == "expression_statement"@ {
        assert(t[c].kind[0] == 'e');
    }
    if f(c) is Some {
        lemma_in_filter_map(top_level(t), f, k);
        let j = choose|j: int| 0 <= j < names.len() && names[j] == f(c)->0;
        assert(names.push("*"@)[j] == f(c)->0);
    }
    if text_of(t, src, left) == "__all__"@ {
        assert(text_of(t, src, left)[0] == '_');
    }
}

/// The strings that the last `__all__` of a module lists are what it exports.
pub proof fn listed_names_are_exported(t: Seq<NodeView>, src: Text, k: int, a: int, left: int, right: int, s: int)
    requires
        0 <= k < top_level(t).len(),
        t[top_level(t)[k]].kind == "expression_statement"@,
        kind_child(t, top_level(t)[k], "assignment"@) == Some(a),
        field_child(t, a, "left"@) == Some(left),
        t[left].kind == "identifier"@,
        text_of(t, src, left) == "__all__"@,
        field_child(t, a, "right"@) == Some(right),
        forall|j: int| k < j < top_level(t).len() ==> listed(t, src, #[trigger] top_level(t)[j]) is None,
    ensures
        t[right].kind != "list"@ && t[right].kind != "tuple"@ ==> module_of(t, src).exports.len() == 0,
        (t[right].kind == "list"@ || t[right].kind == "tuple"@) && children(t, right).contains(s) && t[s].kind
            == "string"@ && literal(t, src, s) is Some ==> module_of(t, src).exports.contains(
            literal(t, src, s)->0,
        ) && module_of(t, src).names_exports,
{
    reveal_strlit("function_definition");
    reveal_strlit("class_definition");
    reveal_strlit("expression_statement");
    let c = top_level(t)[k];
    assert(t[c].kind[0] == 'e');
    let names = string_list(t, src, right);
    assert(listed(t, src, c) == Some(names));
    lemma_last_listed(t, src, top_level(t), k);
    if (t[right].kind == "list"@ || t[right].kind == "tuple"@) && children(t, right).contains(s) && t[s].kind
        == "string"@ && literal(t, src, s) is Some {
        let all = children(t, right);
        let i = choose|i: int| 0 <= i < all.len() && all[i] == s;
        all.lemma_filter_contains(of_kind(t, "string"@), i);
        let kids = kind_children(t, right, "string"@);
        let j = choose|j: int| 0 <= j < kids.len() && kids[j] == s;
        let f = |s: int| literal(t, src, s);
        lemma_in_filter_map(kids, f, j);
        assert(names == kids.filter_map(f));
    }
}

proof fn lemma_last_listed(t: Seq<NodeView>, src: Text, statements: Seq<int>, k: int)
    requires
        0 <= k < statements.len(),
        listed(t, src, statements[k]) is Some,
        forall|j: int| k < j < statements.len() ==> listed(t, src, #[trigger] statements[j]) is None,
    ensures
        last_listed(t, src, statements) == listed(t, src, statements[k]),
    decreases statements.len(),
{
    if k < statements.len() - 1 {
        assert(listed(t, src, statements[statements.len() - 1]) is None);
        let front = statements.drop_last();
        assert(front[k] == statements[k]);
        assert forall|j: int| k < j < front.len() implies listed(t, src, #[trigger] front[j]) is None by {
            assert(front[j] == statements[j]);
        }
        lemma_last_listed(t, src, front, k);
    }
}

/// Whether a statement makes a name public by itself: that of a function or of a
/// class, or of a variable that does not start with an underscore.
pub open spec fn makes_public(t: Seq<NodeView>, src: Text, c: int, name: Text) -> bool {
    ||| (t[c].kind == "function_definition"@ || t[c].kind == "class_definition"@) && match field_child(t, c, "name"@) {
        Some(n) => text_of(t, src, n) == name,
        None => false,
    }
    ||| t[c].kind == "expression_statement"@ && (name.len() == 0 || name[0] != '_') && match kind_child(
        t,
        c,
        "assignment"@,
    ) {
        Some(a) => match field_child(t, a, "left"@) {
            Some(left) => t[left].kind == "identifier"@ && text_of(t, src, left) == name,
            None => false,
        },
        None => false,
    }
}

/// Where no `__all__` says otherwise, a module exports nothing but what its
/// top-level statements make public, and names that are not known.
pub proof fn other_names_are_not_exported(t: Seq<NodeView>, src: Text, name: Text)
    requires
        last_listed(t, src, top_level(t)) is None,
        module_of(t, src).exports.contains(name),
    ensures
        name == "*"@ || exists|k: int|
            0 <= k < top_level(t).len() && makes_public(t, src, #[trigger] top_level(t)[k], name),
{
    let all = top_level(t);
    let f = defined(t, src);
    let names = all.filter_map(f);
    lemma_one_more(names, "*"@);
    if names.contains(name) {
        lemma_from_filter_map(all, f, name);
        let k = choose|k: int| 0 <= k < all.len() && f(#[trigger] all[k]) == Some(name);
        assert(makes_public(t, src, all[k], name));
    }
}

/// Whether a statement lists a dotted name, under an alias or not.
pub open spec fn lists_name(t: Seq<NodeView>, src: Text, node: int, name: Text) -> bool {
    exists|c: int| #[trigger]
        is_child_in(t, node, "name"@, c) && crate::lang::python::dotted(t, src, c) == Some(name)
}

/// Whether a node imports: an import statement a module that it names, and a
/// `from` statement from the module that it names.
pub open spec fn makes_import(t: Seq<NodeView>, src: Text, node: int, i: ImportView) -> bool {
    match i {
        ImportView::Module(m) => t[node].kind == "import_statement"@ && lists_name(t, src, node, m),
        ImportView::From { module, relative, names } => {
            &&& t[node].kind == "import_from_statement"@
            &&& match field_child(t, node, "module_name"@) {
                Some(m) => module == text_of(t, src, m) && t[m].kind == if relative {
                    "relative_import"@
                } else {
                    "dotted_name"@
                },
                None => false,
            }
            &&& kind_child(t, node, "wildcard_import"@) is Some ==> names.len() == 0
            &&& forall|k: int|
                0 <= k < names.len() ==> lists_name(t, src, node, #[trigger] names[k])
        },
    }
}

proof fn lemma_name_from(t: Seq<NodeView>, src: Text, node: int, name: Text)
    requires
        imported_names(t, src, node).contains(name),
    ensures
        lists_name(t, src, node, name),
{
    let kids = field_children(t, node, "name"@);
    let f = dotted_name(t, src);
    lemma_from_filter_map(kids, f, name);
    let k = choose|k: int| 0 <= k < kids.len() && f(#[trigger] kids[k]) == Some(name);
    children(t, node).lemma_filter_pred(in_field(t, "name"@), k);
    assert(kids.contains(kids[k]));
    children(t, node).lemma_filter_contains_rev(in_field(t, "name"@), kids[k]);
    assert(is_child_in(t, node, "name"@, kids[k]));
}

proof fn lemma_module_made(t: Seq<NodeView>, src: Text, node: int, i: ImportView)
    requires
        t[node].kind == "import_statement"@,
        node_imports(t, src)(node).contains(i),
    ensures
        makes_import(t, src, node, i),
{
    let names = imported_names(t, src, node);
    let made = names.map_values(|m: Text| ImportView::Module(m));
    assert(made.contains(i));
    let j = choose|j: int| 0 <= j < made.len() && made[j] == i;
    assert(names.contains(names[j]));
    lemma_name_from(t, src, node, names[j]);
}

proof fn lemma_from_made(t: Seq<NodeView>, src: Text, node: int, i: ImportView)
    requires
        t[node].kind == "import_from_statement"@,
        from_import(t, src, node) == Some(i),
    ensures
        makes_import(t, src, node, i),
{
    let listed = imported_names(t, src, node);
    if let ImportView::From { names, .. } = i {
        assert forall|j: int| 0 <= j < names.len() implies lists_name(t, src, node, #[trigger] names[j]) by {
            assert(names == listed);
            assert(listed.contains(listed[j]));
            lemma_name_from(t, src, node, listed[j]);
        }
    }
}

/// A module imports nothing that no statement of it imports.
pub proof fn imports_come_from_statements(t: Seq<NodeView>, src: Text, i: ImportView) -> (node: int)
    requires
        is_preorder(t),
        module_of(t, src).imports.contains(i),
    ensures
        0 <= node < t.len(),
        makes_import(t, src, node, i),
{
    let all = visits(t);
    let f = node_imports(t, src);
    lemma_from_flat_map(all, f, i);
    let k = choose|k: int| 0 <= k < all.len() && f(#[trigger] all[k]).contains(i);
    let node = all[k];
    assert(0 <= node < t.len()) by {
        every_node_is_visited_once(t);
        assert(all.contains(node));
    }
    assert(makes_import(t, src, node, i)) by {
        if t[node].kind == "import_statement"@ {
            lemma_module_made(t, src, node, i);
        } else {
            assert(t[node].kind == "import_from_statement"@);
            let found = from_import(t, src, node);
            assert(found is Some);
            assert(f(node) == seq![found->0]);
            assert(found == Some(i));
            lemma_from_made(t, src, node, i);
        }
    }
    node
}

/// A relative import that climbs above the topmost directory leads nowhere and
/// stays as it is written.
pub proof fn nothing_lies_above_the_top(
    disk: Map<Text, Option<Text>>,
    root: Text,
    rest: Text,
    names: Seq<Text>,
)
    ensures
        import_targets(disk, root, seq!['/'])(
            (ImportView::From { module: seq!['.', '.'] + rest, relative: true, names }),
        ) == seq![Target::External(seq!['.', '.'] + rest)],
{
    let module = seq!['.', '.'] + rest;
    let one = module.skip(1);
    assert(module[0] == '.');
    assert(one[0] == '.');
    assert(leading_dots(module) == 1 + leading_dots(one));
    assert(leading_dots(one) == 1 + leading_dots(one.skip(1)));
    assert(parent(seq!['/']) is None) by {
        let p = crate::path::parts(seq!['/']);
        assert(p[0] == (0int, 1int));
        assert(crate::path::parts_from(seq!['/'], 1).len() == 0);
    }
}

} // verus!
