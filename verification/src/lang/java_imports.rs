//! Where the imports of Java files lead.
use vstd::prelude::*;

use crate::facts::{Target, Wanted};
use crate::graph::java_index;
use crate::lang::java::{
    declared_type, flat_name, header_of, import_of, import_targets, imports_of, java_facts, last_package, name_node,
    package_import_leads_to_the_others, qualified, with_file, with_types, HeaderView, ImportView, IndexView,
};
use crate::path::last_dot;
use crate::scan::{ContentsView, ScanView};
use crate::syntax::{children, top_level, NodeView};
use crate::text::Text;
use crate::tsutil::{field_child, kind_child, lemma_first_of, named_of_kinds, text_of};

verus! {

/// The full name of a type as an import writes it: the package, a dot and the
/// type, or the type alone in the default package.
pub open spec fn written(package: Text, ty: Text) -> Text {
    if package == Seq::<char>::empty() {
        ty
    } else {
        package + seq!['.'] + ty
    }
}

/// `import path;`
pub open spec fn plain_import(path: Text) -> ImportView {
    ImportView { path, is_static: false, is_wildcard: false }
}

/// `import path.*;`
pub open spec fn package_import(path: Text) -> ImportView {
    ImportView { path, is_static: false, is_wildcard: true }
}

/// `import static path;`
pub open spec fn static_import(path: Text) -> ImportView {
    ImportView { path, is_static: true, is_wildcard: false }
}

/// `import static path.*;`
pub open spec fn static_members_import(path: Text) -> ImportView {
    ImportView { path, is_static: true, is_wildcard: true }
}

proof fn lemma_written(package: Text, ty: Text)
    ensures
        qualified(package, ty) == written(package, ty),
{
    reveal_strlit(".");
    if package.len() == 0 {
        assert(package =~= Seq::<char>::empty());
    } else {
        assert(package + "."@ + ty =~= package + seq!['.'] + ty);
    }
}

/// The types of a file that is taken into an index are in it by their full
/// names, and lead to the file; other names lead where they led before.
pub proof fn types_are_known_by_full_name(index: IndexView, rel: Text, header: HeaderView, name: Text)
    ensures
        (exists|k: int| 0 <= k < header.types.len() && name == written(header.package, #[trigger] header.types[k]))
            ==> with_file(index, rel, header).types.contains_key(name) && with_file(
            index,
            rel,
            header,
        ).types[name] == rel,
        !(exists|k: int|
            0 <= k < header.types.len() && name == written(header.package, #[trigger] header.types[k])) ==> (
        with_file(index, rel, header).types.contains_key(name) <==> index.types.contains_key(name)) && (
        index.types.contains_key(name) ==> with_file(index, rel, header).types[name] == index.types[name]),
{
    lemma_types(index.types, rel, header.package, header.types, name);
}

proof fn lemma_types(index: Map<Text, Text>, rel: Text, package: Text, types: Seq<Text>, name: Text)
    ensures
        (exists|k: int| 0 <= k < types.len() && name == written(package, #[trigger] types[k])) ==> with_types(
            index,
            rel,
            package,
            types,
        ).contains_key(name) && with_types(index, rel, package, types)[name] == rel,
        !(exists|k: int| 0 <= k < types.len() && name == written(package, #[trigger] types[k])) ==> (with_types(
            index,
            rel,
            package,
            types,
        ).contains_key(name) <==> index.contains_key(name)) && (index.contains_key(name) ==> with_types(
            index,
            rel,
            package,
            types,
        )[name] == index[name]),
    decreases types.len(),
{
    if types.len() > 0 {
        let front = types.drop_last();
        lemma_types(index, rel, package, front, name);
        lemma_written(package, types.last());
        if exists|k: int| 0 <= k < front.len() && name == written(package, #[trigger] front[k]) {
            let k = choose|k: int| 0 <= k < front.len() && name == written(package, #[trigger] front[k]);
            assert(types[k] == front[k]);
        }
        if exists|k: int| 0 <= k < types.len() && name == written(package, #[trigger] types[k]) {
            let k = choose|k: int| 0 <= k < types.len() && name == written(package, #[trigger] types[k]);
            if k < front.len() {
                assert(front[k] == types[k]);
            }
        }
        if name == written(package, types.last()) {
            assert(name == written(package, types[types.len() - 1]));
        }
    }
}

/// An import of a type by its full name leads to the file that declares it.
pub proof fn imported_type_is_found(
    index: IndexView,
    rel: Text,
    header: HeaderView,
    k: int,
    importer: Text,
)
    requires
        0 <= k < header.types.len(),
    ensures
        header.package != Seq::<char>::empty() ==> import_targets(with_file(index, rel, header), importer)(
            plain_import(header.package + seq!['.'] + header.types[k]),
        ) == seq![Target::Internal(rel)],
        header.package == Seq::<char>::empty() ==> import_targets(with_file(index, rel, header), importer)(
            plain_import(header.types[k]),
        ) == seq![Target::Internal(rel)],
{
    let name = written(header.package, header.types[k]);
    types_are_known_by_full_name(index, rel, header, name);
}

/// A static import of all members of a type leads to the file that declares the
/// type.
pub proof fn static_members_are_found(
    index: IndexView,
    rel: Text,
    header: HeaderView,
    k: int,
    importer: Text,
)
    requires
        0 <= k < header.types.len(),
    ensures
        import_targets(with_file(index, rel, header), importer)(
            static_members_import(written(header.package, header.types[k])),
        ) == seq![Target::Internal(rel)],
{
    types_are_known_by_full_name(index, rel, header, written(header.package, header.types[k]));
}

proof fn lemma_last_dot(s: Text, member: Text, j: int)
    requires
        s.len() < j <= s.len() + 1 + member.len(),
        forall|i: int| 0 <= i < member.len() ==> #[trigger] member[i] != '.',
    ensures
        last_dot(s + seq!['.'] + member, 0, j) == Some(s.len() as int),
    decreases j,
{
    let t = s + seq!['.'] + member;
    if j == s.len() + 1 {
        assert(t[j - 1] == '.');
    } else {
        assert(t[j - 1] == member[j - 2 - s.len()]);
        lemma_last_dot(s, member, j - 1);
    }
}

/// A static import of one member of a type leads to the file that declares the
/// type.
pub proof fn static_member_is_found(
    index: IndexView,
    rel: Text,
    header: HeaderView,
    k: int,
    member: Text,
    importer: Text,
)
    requires
        0 <= k < header.types.len(),
        forall|i: int| 0 <= i < member.len() ==> #[trigger] member[i] != '.',
    ensures
        import_targets(with_file(index, rel, header), importer)(
            static_import(written(header.package, header.types[k]) + seq!['.'] + member),
        ) == seq![Target::Internal(rel)],
{
    let name = written(header.package, header.types[k]);
    let path = name + seq!['.'] + member;
    types_are_known_by_full_name(index, rel, header, name);
    lemma_last_dot(name, member, path.len() as int);
    assert(path.take(name.len() as int) =~= name);
}

/// A static import whose path is itself that of a type, and behind whose last
/// dot no member of a type stands, leads to the type.
pub proof fn static_import_of_a_type_is_found(
    index: IndexView,
    scope: Text,
    ty: Text,
    importer: Text,
)
    requires
        forall|i: int| 0 <= i < ty.len() ==> #[trigger] ty[i] != '.',
        !index.types.contains_key(scope),
        index.types.contains_key(scope + seq!['.'] + ty),
    ensures
        import_targets(index, importer)(static_import(scope + seq!['.'] + ty)) == seq![
            Target::Internal(index.types[scope + seq!['.'] + ty]),
        ],
{
    let path = scope + seq!['.'] + ty;
    lemma_last_dot(scope, ty, path.len() as int);
    assert(path.take(scope.len() as int) =~= scope);
}

/// What the index does not know stays as it is written, with a star where the
/// import has one.
pub proof fn unknown_imports_stay_as_they_are(index: IndexView, path: Text, scope: Text, importer: Text)
    requires
        !index.types.contains_key(path),
    ensures
        import_targets(index, importer)(plain_import(path)) == seq![Target::External(path)],
        import_targets(index, importer)(static_members_import(path)) == seq![
            Target::External(path + seq!['.', '*']),
        ],
        !index.packages.contains_key(path) ==> import_targets(index, importer)(package_import(path)) == seq![
            Target::External(path + seq!['.', '*']),
        ],
        (forall|k: int| 0 <= k < path.len() ==> !index.types.contains_key(#[trigger] path.take(k)))
            ==> import_targets(index, importer)(static_import(path)) == seq![Target::External(path)],
{
    reveal_strlit(".*");
    assert(".*"@ =~= seq!['.', '*']);
    if !index.packages.contains_key(path) {
        assert(Seq::<Text>::empty().filter(crate::lang::java::other_than(importer)).len() == 0) by {
            reveal(Seq::filter);
        }
    }
    lemma_dot_inside(path, path.len() as int);
}

proof fn lemma_dot_inside(s: Text, j: int)
    requires
        0 <= j <= s.len(),
    ensures
        last_dot(s, 0, j) is Some ==> 0 <= last_dot(s, 0, j)->0 < j,
    decreases j,
{
    if j > 0 && s[j - 1] != '.' {
        lemma_dot_inside(s, j - 1);
    }
}

/// An import of a whole package leads to every file of it but the importing one,
/// once that file is in the index.
pub proof fn package_import_finds_the_file(index: IndexView, rel: Text, header: HeaderView, importer: Text)
    requires
        rel != importer,
    ensures
        import_targets(with_file(index, rel, header), importer)(package_import(header.package)).contains(
            Target::Internal(rel),
        ),
{
    crate::lang::java::added_file_is_in_its_package(index, rel, header, rel);
    package_import_leads_to_the_others(with_file(index, rel, header), importer, header.package, rel);
}

/// Taking a file into the index leaves the other packages as they were.
pub proof fn other_packages_stay(index: IndexView, rel: Text, header: HeaderView, package: Text)
    requires
        package != header.package,
    ensures
        with_file(index, rel, header).packages.contains_key(package) <==> index.packages.contains_key(package),
        index.packages.contains_key(package) ==> with_file(index, rel, header).packages[package]
            == index.packages[package],
{
}

/// Whether a source file is a Java file of this package.
pub open spec fn belongs_to(scan: ScanView, package: Text) -> bool {
    match scan.contents {
        ContentsView::Java { header, .. } => header.package == package,
        _ => false,
    }
}

/// Whether a source file declares a type of this full name.
pub open spec fn declares_name(scan: ScanView, name: Text) -> bool {
    match scan.contents {
        ContentsView::Java { header, .. } => exists|k: int|
            0 <= k < header.types.len() && name == written(header.package, #[trigger] header.types[k]),
        _ => false,
    }
}

/// The index of a source tree leads from a full name to the last file that
/// declares a type of that name, and knows no other names.
pub proof fn index_knows_the_last_declaration(scans: Seq<ScanView>, name: Text)
    ensures
        java_index(scans).types.contains_key(name) <==> exists|i: int|
            0 <= i < scans.len() && declares_name(#[trigger] scans[i], name),
        forall|i: int|
            0 <= i < scans.len() && declares_name(#[trigger] scans[i], name) && (forall|j: int|
                i < j < scans.len() ==> !declares_name(#[trigger] scans[j], name)) ==> java_index(
                scans,
            ).types[name] == scans[i].rel,
{
    lemma_name_known(scans, name);
    assert forall|i: int|
        0 <= i < scans.len() && declares_name(#[trigger] scans[i], name) && (forall|j: int|
            i < j < scans.len() ==> !declares_name(#[trigger] scans[j], name)) implies java_index(scans).types[name]
        == scans[i].rel by {
        lemma_last_declared(scans, name, i);
    }
}

proof fn lemma_name_known(scans: Seq<ScanView>, name: Text)
    ensures
        java_index(scans).types.contains_key(name) <==> exists|i: int|
            0 <= i < scans.len() && declares_name(#[trigger] scans[i], name),
    decreases scans.len(),
{
    if scans.len() > 0 {
        let front = scans.drop_last();
        let last = scans.last();
        lemma_name_known(front, name);
        lemma_one_file(scans, name);
        assert(scans[scans.len() - 1] == last);
        if java_index(front).types.contains_key(name) {
            let i = choose|i: int| 0 <= i < front.len() && declares_name(#[trigger] front[i], name);
            assert(declares_name(scans[i], name));
        }
        if exists|i: int| 0 <= i < scans.len() && declares_name(#[trigger] scans[i], name) {
            let i = choose|i: int| 0 <= i < scans.len() && declares_name(#[trigger] scans[i], name);
            if i < front.len() {
                assert(declares_name(front[i], name));
            }
        }
    }
}

/// What the last file does to what the index says of a name.
proof fn lemma_one_file(scans: Seq<ScanView>, name: Text)
    requires
        scans.len() > 0,
    ensures
        ({
            let was = java_index(scans.drop_last()).types;
            let now = java_index(scans).types;
            &&& now.contains_key(name) <==> was.contains_key(name) || declares_name(scans.last(), name)
            &&& declares_name(scans.last(), name) ==> now[name] == scans.last().rel
            &&& !declares_name(scans.last(), name) && was.contains_key(name) ==> now[name] == was[name]
        }),
{
    if let ContentsView::Java { header, .. } = scans.last().contents {
        types_are_known_by_full_name(java_index(scans.drop_last()), scans.last().rel, header, name);
    }
}

proof fn lemma_last_declared(scans: Seq<ScanView>, name: Text, i: int)
    requires
        0 <= i < scans.len(),
        declares_name(scans[i], name),
        forall|j: int| i < j < scans.len() ==> !declares_name(#[trigger] scans[j], name),
    ensures
        java_index(scans).types[name] == scans[i].rel,
    decreases scans.len(),
{
    let front = scans.drop_last();
    lemma_one_file(scans, name);
    if i < scans.len() - 1 {
        assert(!declares_name(scans[scans.len() - 1], name));
        assert(front[i] == scans[i]);
        assert forall|j: int| i < j < front.len() implies !declares_name(#[trigger] front[j], name) by {
            assert(!declares_name(scans[j], name));
        }
        lemma_last_declared(front, name, i);
        lemma_name_known(front, name);
        assert(declares_name(front[i], name));
    }
}

/// The index of a source tree has under a package exactly the files of it.
pub proof fn index_knows_the_packages(scans: Seq<ScanView>, package: Text, rel: Text)
    ensures
        (java_index(scans).packages.contains_key(package) && java_index(scans).packages[package].contains(rel))
            <==> exists|i: int| 0 <= i < scans.len() && belongs_to(#[trigger] scans[i], package) && scans[i].rel == rel,
    decreases scans.len(),
{
    if scans.len() > 0 {
        let front = scans.drop_last();
        index_knows_the_packages(front, package, rel);
        let last = scans.last();
        let before = java_index(front);
        assert forall|i: int| 0 <= i < front.len() implies #[trigger] scans[i] == front[i] by {}
        assert(scans[scans.len() - 1] == last);
        if let ContentsView::Java { header, .. } = last.contents {
            let was = crate::lang::java::files_of(before.packages, header.package);
            let now = was.push(last.rel);
            assert(now[was.len() as int] == last.rel);
            if was.contains(rel) {
                let i = choose|i: int| 0 <= i < was.len() && was[i] == rel;
                assert(now[i] == rel);
            }
            if now.contains(rel) && rel != last.rel {
                let i = choose|i: int| 0 <= i < now.len() && now[i] == rel;
                assert(was[i] == rel);
            }
        }
        if exists|i: int| 0 <= i < front.len() && belongs_to(#[trigger] front[i], package) && front[i].rel == rel {
            let i = choose|i: int| 0 <= i < front.len() && belongs_to(#[trigger] front[i], package) && front[i].rel
                == rel;
            assert(belongs_to(scans[i], package));
        }
        if exists|i: int| 0 <= i < scans.len() && belongs_to(#[trigger] scans[i], package) && scans[i].rel == rel {
            let i = choose|i: int| 0 <= i < scans.len() && belongs_to(#[trigger] scans[i], package) && scans[i].rel
                == rel;
            if i < front.len() {
                assert(belongs_to(front[i], package));
            }
        }
    }
}

/// A Java file depends on what each of its imports leads to, wholly; it exports
/// its types, and re-exports nothing.
pub proof fn java_files_depend_on_their_imports(
    imports: Seq<ImportView>,
    types: Seq<Text>,
    rel: Text,
    index: IndexView,
    i: int,
    target: Target,
)
    requires
        0 <= i < imports.len(),
        import_targets(index, rel)(imports[i]).contains(target),
    ensures
        exists|k: int|
            0 <= k < java_facts(imports, types, rel, index).dependencies.len() && (#[trigger] java_facts(
                imports,
                types,
                rel,
                index,
            ).dependencies[k]).target == target && java_facts(imports, types, rel, index).dependencies[k].want
                == Wanted::All,
        java_facts(imports, types, rel, index).exports == types,
        !java_facts(imports, types, rel, index).has_reexports,
{
    let f = import_targets(index, rel);
    let all = imports.flat_map(f);
    crate::lists::lemma_in_flat_map(imports, f, i, target);
    let k = choose|k: int| 0 <= k < all.len() && all[k] == target;
    let edge = java_facts(imports, types, rel, index).dependencies[k];
    assert(edge.target == target);
}

/// The header of a file has every class, interface, enum, record and annotation
/// type that stands at its top level, by its name.
pub proof fn top_level_types_are_in_the_header(t: Seq<NodeView>, src: Text, k: int)
    requires
        0 <= k < top_level(t).len(),
        ({
            let kind = t[top_level(t)[k]].kind;
            kind == "class_declaration"@ || kind == "interface_declaration"@ || kind == "enum_declaration"@
                || kind == "record_declaration"@ || kind == "annotation_type_declaration"@
        }),
        field_child(t, top_level(t)[k], "name"@) is Some,
    ensures
        header_of(t, src).types.contains(text_of(t, src, field_child(t, top_level(t)[k], "name"@)->0)),
{
    let c = top_level(t)[k];
    let kinds = crate::lang::java::type_kinds();
    reveal_strlit("class_declaration");
    reveal_strlit("interface_declaration");
    reveal_strlit("enum_declaration");
    reveal_strlit("record_declaration");
    reveal_strlit("annotation_type_declaration");
    reveal_strlit("package_declaration");
    assert(t[c].kind != "package_declaration"@) by {
        if t[c].kind == "package_declaration"@ {
            assert(t[c].kind[0] == 'p');
        }
    }
    assert(kinds.contains(t[c].kind)) by {
        assert(kinds[0] == "class_declaration"@);
        assert(kinds[1] == "interface_declaration"@);
        assert(kinds[2] == "enum_declaration"@);
        assert(kinds[3] == "record_declaration"@);
        assert(kinds[4] == "annotation_type_declaration"@);
    }
    crate::lists::lemma_in_filter_map(top_level(t), declared_type(t, src), k);
}

/// The imports of a file have every import that stands at its top level, static
/// where the word stands in it, and of a whole package or type where a star does.
pub proof fn top_level_imports_are_taken(t: Seq<NodeView>, src: Text, k: int, name: int)
    requires
        0 <= k < top_level(t).len(),
        t[top_level(t)[k]].kind == "import_declaration"@,
        name_node(t, top_level(t)[k]) == Some(name),
    ensures
        imports_of(t, src).contains(
            (ImportView {
                path: flat_name(t, src, name),
                is_static: kind_child(t, top_level(t)[k], "static"@) is Some,
                is_wildcard: kind_child(t, top_level(t)[k], "asterisk"@) is Some,
            }),
        ),
{
    crate::lists::lemma_in_filter_map(top_level(t), import_of(t, src), k);
}

/// A name in parts is written with a dot between what it lies in and its last
/// part.
pub proof fn names_are_written_with_dots(t: Seq<NodeView>, src: Text, node: int, scope: int, name: int)
    requires
        0 <= node < t.len(),
        t[node].kind == "scoped_identifier"@,
        field_child(t, node, "scope"@) == Some(scope),
        field_child(t, node, "name"@) == Some(name),
        flat_name(t, src, scope).len() > 0,
    ensures
        flat_name(t, src, node) == flat_name(t, src, scope) + seq!['.'] + text_of(t, src, name),
{
    lemma_written(flat_name(t, src, scope), text_of(t, src, name));
}

/// A name in one part is written as it is.
pub proof fn simple_names_are_written_as_they_are(t: Seq<NodeView>, src: Text, node: int)
    requires
        0 <= node < t.len(),
        t[node].kind == "identifier"@,
    ensures
        flat_name(t, src, node) == text_of(t, src, node),
{
    reveal_strlit("identifier");
    reveal_strlit("scoped_identifier");
    if t[node].kind == "scoped_identifier"@ {
        assert(t[node].kind[0] == 's');
    }
}

/// A Java file has exports of its own exactly where it has types.
pub proof fn java_files_export_their_types(imports: Seq<ImportView>, types: Seq<Text>, rel: Text, index: IndexView)
    ensures
        java_facts(imports, types, rel, index).has_local_exports <==> exists|ty: Text| #[trigger]
            java_facts(imports, types, rel, index).exports.contains(ty),
        forall|ty: Text| #[trigger]
            types.contains(ty) <==> java_facts(imports, types, rel, index).exports.contains(ty),
{
    if types.len() > 0 {
        assert(java_facts(imports, types, rel, index).exports.contains(types[0]));
    }
}

/// The package of a file is the one that its last package declaration names; a
/// file without one belongs to the default package.
pub proof fn the_last_package_declaration_counts(t: Seq<NodeView>, src: Text, k: int, name: int)
    ensures
        0 <= k < top_level(t).len() && t[top_level(t)[k]].kind == "package_declaration"@ && name_node(
            t,
            top_level(t)[k],
        ) == Some(name) && (forall|j: int|
            k < j < top_level(t).len() ==> t[#[trigger] top_level(t)[j]].kind != "package_declaration"@) ==> header_of(
            t,
            src,
        ).package == flat_name(t, src, name),
        (forall|j: int|
            0 <= j < top_level(t).len() ==> t[#[trigger] top_level(t)[j]].kind != "package_declaration"@)
            ==> header_of(t, src).package.len() == 0,
{
    let all = top_level(t);
    if 0 <= k < all.len() && t[all[k]].kind == "package_declaration"@ && name_node(t, all[k]) == Some(name) && (
    forall|j: int| k < j < all.len() ==> t[#[trigger] all[j]].kind != "package_declaration"@) {
        lemma_package(t, src, all, k);
    }
    if forall|j: int| 0 <= j < all.len() ==> t[#[trigger] all[j]].kind != "package_declaration"@ {
        lemma_no_package(t, src, all);
    }
}

proof fn lemma_package(t: Seq<NodeView>, src: Text, nodes: Seq<int>, k: int)
    requires
        0 <= k < nodes.len(),
        t[nodes[k]].kind == "package_declaration"@,
        name_node(t, nodes[k]) is Some,
        forall|j: int| k < j < nodes.len() ==> t[#[trigger] nodes[j]].kind != "package_declaration"@,
    ensures
        last_package(t, src, nodes) == flat_name(t, src, name_node(t, nodes[k])->0),
    decreases nodes.len(),
{
    if k < nodes.len() - 1 {
        let front = nodes.drop_last();
        assert(t[nodes[nodes.len() - 1]].kind != "package_declaration"@);
        assert forall|j: int| k < j < front.len() implies t[#[trigger] front[j]].kind != "package_declaration"@ by {
            assert(front[j] == nodes[j]);
        }
        lemma_package(t, src, front, k);
    }
}

proof fn lemma_no_package(t: Seq<NodeView>, src: Text, nodes: Seq<int>)
    requires
        forall|j: int| 0 <= j < nodes.len() ==> t[#[trigger] nodes[j]].kind != "package_declaration"@,
    ensures
        last_package(t, src, nodes).len() == 0,
    decreases nodes.len(),
{
    if nodes.len() > 0 {
        let front = nodes.drop_last();
        assert(t[nodes[nodes.len() - 1]].kind != "package_declaration"@);
        assert forall|j: int| 0 <= j < front.len() implies t[#[trigger] front[j]].kind != "package_declaration"@ by {
            assert(front[j] == nodes[j]);
        }
        lemma_no_package(t, src, front);
    }
}

/// The header of a file has no other types than those that are declared at its top
/// level.
pub proof fn types_come_from_declarations(t: Seq<NodeView>, src: Text, ty: Text) -> (c: int)
    requires
        header_of(t, src).types.contains(ty),
    ensures
        top_level(t).contains(c),
        t[c].kind == "class_declaration"@ || t[c].kind == "interface_declaration"@ || t[c].kind
            == "enum_declaration"@ || t[c].kind == "record_declaration"@ || t[c].kind == "annotation_type_declaration"@,
        field_child(t, c, "name"@) is Some,
        text_of(t, src, field_child(t, c, "name"@)->0) == ty,
{
    let all = top_level(t);
    let f = declared_type(t, src);
    crate::lists::lemma_from_filter_map(all, f, ty);
    let k = choose|k: int| 0 <= k < all.len() && f(#[trigger] all[k]) == Some(ty);
    assert(all.contains(all[k]));
    all[k]
}

/// A file has no other imports than those that stand at its top level.
pub proof fn imports_come_from_declarations(t: Seq<NodeView>, src: Text, i: ImportView) -> (c: int)
    requires
        imports_of(t, src).contains(i),
    ensures
        top_level(t).contains(c),
        t[c].kind == "import_declaration"@,
        name_node(t, c) is Some,
        i.path == flat_name(t, src, name_node(t, c)->0),
        i.is_static <==> kind_child(t, c, "static"@) is Some,
        i.is_wildcard <==> kind_child(t, c, "asterisk"@) is Some,
{
    let all = top_level(t);
    let f = import_of(t, src);
    crate::lists::lemma_from_filter_map(all, f, i);
    let k = choose|k: int| 0 <= k < all.len() && f(#[trigger] all[k]) == Some(i);
    assert(all.contains(all[k]));
    all[k]
}

/// What a package or an import names stands in the first of its children that is a
/// name, in one part or in several.
pub proof fn the_first_name_counts(t: Seq<NodeView>, node: int, c: int)
    requires
        name_node(t, node) == Some(c),
    ensures
        children(t, node).contains(c),
        t[c].named,
        t[c].kind == "identifier"@ || t[c].kind == "scoped_identifier"@,
{
    let kinds = seq!["identifier"@, "scoped_identifier"@];
    lemma_first_of(children(t, node), named_of_kinds(t, kinds));
    assert(kinds.contains(t[c].kind));
}

} // verus!
