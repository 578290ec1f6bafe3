//! Java: packages, types and imports.
use vstd::prelude::*;
use vstd::hash_map::StringHashMap;

use crate::facts::{targets, whole, whole_edges, DepRef, Facts, FileFacts, Target};
use crate::path::last_dot;
use crate::syntax::{children, numbers, top_level, NodeView, SyntaxTree};
use crate::text::{chars_of, copy_texts, join2, join3, same, string_of, strs, texts, Text};
use crate::tsutil::{
    child_by_field_name, field_child, first_named_child_of_kinds, first_of, has_child_kind, is_kind, kind_child,
    lemma_field_child, named_of_kinds, node_text, optional_number, text_of,
};

verus! {

/// The package of a file, empty for the default package, and its top-level
/// types.
pub struct FileHeader {
    pub package: String,
    pub types: Vec<String>,
}

/// The view of a [`FileHeader`].
#[verifier::ext_equal]
pub struct HeaderView {
    pub package: Text,
    pub types: Seq<Text>,
}

impl View for FileHeader {
    type V = HeaderView;

    open spec fn view(&self) -> HeaderView {
        HeaderView { package: self.package@, types: texts(self.types@) }
    }
}

/// An import as it is written.
pub struct RawImport {
    pub path: String,
    pub is_static: bool,
    pub is_wildcard: bool,
}

/// The view of a [`RawImport`].
pub struct ImportView {
    pub path: Text,
    pub is_static: bool,
    pub is_wildcard: bool,
}

impl View for RawImport {
    type V = ImportView;

    open spec fn view(&self) -> ImportView {
        ImportView { path: self.path@, is_static: self.is_static, is_wildcard: self.is_wildcard }
    }
}

/// The views of a list of imports.
pub open spec fn import_views(list: Seq<RawImport>) -> Seq<ImportView> {
    list.map_values(|i: RawImport| i@)
}

/// The types and packages of a source tree, with the files that hold them.
pub struct JavaIndex {
    /// A type with its package, as `pkg.Type`, and the file that declares it.
    pub type_index: StringHashMap<String>,
    /// A package and the files that belong to it.
    pub package_index: StringHashMap<Vec<String>>,
}

/// The view of a [`JavaIndex`].
#[verifier::ext_equal]
pub struct IndexView {
    pub types: Map<Text, Text>,
    pub packages: Map<Text, Seq<Text>>,
}

impl View for JavaIndex {
    type V = IndexView;

    open spec fn view(&self) -> IndexView {
        IndexView {
            types: self.type_index@.map_values(|f: String| f@),
            packages: self.package_index@.map_values(|files: Vec<String>| texts(files@)),
        }
    }
}

/// The index of a source tree without Java files.
pub open spec fn empty_index() -> IndexView {
    IndexView { types: Map::empty(), packages: Map::empty() }
}

impl Default for JavaIndex {
    fn default() -> (r: JavaIndex)
        ensures
            r@ == empty_index(),
    {
        let r = JavaIndex { type_index: StringHashMap::new(), package_index: StringHashMap::new() };
        assert(r@ =~= empty_index());
        r
    }
}

/// The name of a type with its package.
pub open spec fn qualified(package: Text, ty: Text) -> Text {
    if package.len() == 0 {
        ty
    } else {
        package + "."@ + ty
    }
}

/// The index of types once those of a file are in it. A later file takes a
/// name over from an earlier one.
pub open spec fn with_types(index: Map<Text, Text>, rel: Text, package: Text, types: Seq<Text>) -> Map<
    Text,
    Text,
>
    decreases types.len(),
{
    if types.len() == 0 {
        index
    } else {
        with_types(index, rel, package, types.drop_last()).insert(
            qualified(package, types.last()),
            rel,
        )
    }
}

/// The files of a package.
pub open spec fn files_of(packages: Map<Text, Seq<Text>>, package: Text) -> Seq<Text> {
    if packages.contains_key(package) {
        packages[package]
    } else {
        Seq::empty()
    }
}

/// The index once a file is in it.
pub open spec fn with_file(index: IndexView, rel: Text, header: HeaderView) -> IndexView {
    IndexView {
        types: with_types(index.types, rel, header.package, header.types),
        packages: index.packages.insert(
            header.package,
            files_of(index.packages, header.package).push(rel),
        ),
    }
}

impl JavaIndex {
    /// Takes a file into the index.
    pub fn add(&mut self, file_rel: &str, header: &FileHeader)
        ensures
            final(self)@ == with_file(old(self)@, file_rel@, header@),
    {
        let ghost was = self@;
        let ghost all = texts(header.types@);
        let ghost package = header.package@;
        let mut i: usize = 0;
        assert(self@.types =~= with_types(was.types, file_rel@, package, all.take(0)));
        while i < header.types.len()
            invariant
                i <= header.types@.len(),
                all == texts(header.types@),
                package == header.package@,
                self@.types == with_types(was.types, file_rel@, package, all.take(i as int)),
                self@.packages == was.packages,
            decreases header.types@.len() - i,
        {
            assert(all.take(i + 1).drop_last() =~= all.take(i as int));
            assert(all.take(i + 1).last() == all[i as int]);
            let ghost mid = self@.types;
            let name = if header.package.as_str().is_empty() {
                header.types[i].clone()
            } else {
                join3(header.package.as_str(), ".", header.types[i].as_str())
            };
            let ghost n = name@;
            self.type_index.insert(name, file_rel.to_owned());
            assert(self@.types =~= mid.insert(n, file_rel@));
            i = i + 1;
        }
        assert(all.take(all.len() as int) =~= all);
        let mut files = match self.package_index.get(header.package.as_str()) {
            Some(files) => copy_texts(files),
            None => Vec::new(),
        };
        let ghost before = texts(files@);
        assert(before =~= files_of(was.packages, package));
        files.push(file_rel.to_owned());
        assert(texts(files@) =~= before.push(file_rel@));
        let ghost list = texts(files@);
        self.package_index.insert(header.package.clone(), files);
        assert(self@.packages =~= was.packages.insert(package, list));
    }
}

/// A name as it is written with dots between its parts.
pub open spec fn flat_name(t: Seq<NodeView>, src: Text, node: int) -> Text
    decreases t.len() - node,
{
    if 0 <= node < t.len() && t[node].kind == "scoped_identifier"@ {
        proof {
            lemma_field_child(t, node, "scope"@);
        }
        let scope = match field_child(t, node, "scope"@) {
            Some(n) => flat_name(t, src, n),
            None => Seq::empty(),
        };
        let name = match field_child(t, node, "name"@) {
            Some(n) => text_of(t, src, n),
            None => Seq::empty(),
        };
        qualified(scope, name)
    } else {
        text_of(t, src, node)
    }
}

/// The node that names a package or an import.
pub open spec fn name_node(t: Seq<NodeView>, node: int) -> Option<int> {
    first_of(children(t, node), named_of_kinds(t, seq!["identifier"@, "scoped_identifier"@]))
}

/// The kinds of top-level types.
pub open spec fn type_kinds() -> Seq<Text> {
    seq![
        "class_declaration"@,
        "interface_declaration"@,
        "enum_declaration"@,
        "record_declaration"@,
        "annotation_type_declaration"@,
    ]
}

/// The name of a top-level type.
pub open spec fn declared_type(t: Seq<NodeView>, src: Text) -> spec_fn(int) -> Option<Text> {
    |c: int|
        if t[c].kind != "package_declaration"@ && type_kinds().contains(t[c].kind) {
            match field_child(t, c, "name"@) {
                Some(n) => Some(text_of(t, src, n)),
                None => None,
            }
        } else {
            None
        }
}

/// The package that the last package declaration of some nodes names.
pub open spec fn last_package(t: Seq<NodeView>, src: Text, nodes: Seq<int>) -> Text
    decreases nodes.len(),
{
    if nodes.len() == 0 {
        Seq::empty()
    } else if t[nodes.last()].kind == "package_declaration"@ && name_node(t, nodes.last()) is Some {
        flat_name(t, src, name_node(t, nodes.last())->0)
    } else {
        last_package(t, src, nodes.drop_last())
    }
}

/// The header of a file.
pub open spec fn header_of(t: Seq<NodeView>, src: Text) -> HeaderView {
    HeaderView {
        package: last_package(t, src, top_level(t)),
        types: top_level(t).filter_map(declared_type(t, src)),
    }
}

/// The import that a node makes.
pub open spec fn import_of(t: Seq<NodeView>, src: Text) -> spec_fn(int) -> Option<ImportView> {
    |c: int|
        if t[c].kind == "import_declaration"@ {
            match name_node(t, c) {
                Some(n) => Some(
                    ImportView {
                        path: flat_name(t, src, n),
                        is_static: kind_child(t, c, "static"@) is Some,
                        is_wildcard: kind_child(t, c, "asterisk"@) is Some,
                    },
                ),
                None => None,
            }
        } else {
            None
        }
}

/// The imports of a file.
pub open spec fn imports_of(t: Seq<NodeView>, src: Text) -> Seq<ImportView> {
    top_level(t).filter_map(import_of(t, src))
}

/// A name as it is written with dots between its parts.
pub fn flatten_ident(tree: &SyntaxTree, node: usize, src: &str) -> (r: String)
    requires
        tree.wf(),
        node < tree@.len(),
    ensures
        r@ == flat_name(tree@, src@, node as int),
    decreases tree@.len() - node,
{
    if is_kind(tree, node, "scoped_identifier") {
        proof {
            lemma_field_child(tree@, node as int, "scope"@);
        }
        let scope = match child_by_field_name(tree, node, "scope") {
            Some(n) => flatten_ident(tree, n, src),
            None => String::new(),
        };
        let name = match child_by_field_name(tree, node, "name") {
            Some(n) => node_text(tree, n, src).to_owned(),
            None => String::new(),
        };
        if scope.as_str().is_empty() {
            name
        } else {
            join3(scope.as_str(), ".", name.as_str())
        }
    } else {
        node_text(tree, node, src).to_owned()
    }
}

/// The node that names a package or an import.
fn find_name(tree: &SyntaxTree, node: usize) -> (r: Option<usize>)
    requires
        tree.wf(),
        node < tree@.len(),
    ensures
        optional_number(r) == name_node(tree@, node as int),
        r is Some ==> r->0 < tree@.len(),
{
    let kinds: [&str; 2] = ["identifier", "scoped_identifier"];
    proof {
        assert(strs(kinds@) =~= seq!["identifier"@, "scoped_identifier"@]);
    }
    first_named_child_of_kinds(tree, node, &kinds)
}

/// Whether a node is a top-level type.
fn is_type(tree: &SyntaxTree, node: usize) -> (r: bool)
    requires
        node < tree@.len(),
    ensures
        r == type_kinds().contains(tree@[node as int].kind),
{
    let ghost kinds = type_kinds();
    let r = is_kind(tree, node, "class_declaration") || is_kind(tree, node, "interface_declaration")
        || is_kind(tree, node, "enum_declaration") || is_kind(tree, node, "record_declaration") || is_kind(
        tree,
        node,
        "annotation_type_declaration",
    );
    proof {
        assert(kinds[0] == "class_declaration"@);
        assert(kinds[1] == "interface_declaration"@);
        assert(kinds[2] == "enum_declaration"@);
        assert(kinds[3] == "record_declaration"@);
        assert(kinds[4] == "annotation_type_declaration"@);
    }
    r
}

/// The header of a file.
pub fn scan_header(tree: &SyntaxTree, src: &str) -> (r: FileHeader)
    requires
        tree.wf(),
    ensures
        r@ == header_of(tree@, src@),
{
    let nodes = tree.top_level();
    let ghost all = numbers(nodes@);
    let ghost f = declared_type(tree@, src@);
    let mut package = String::new();
    let mut types: Vec<String> = Vec::new();
    let mut i: usize = 0;
    assert(all.take(0) =~= Seq::<int>::empty());
    assert(texts(types@) =~= all.take(0).filter_map(f));
    assert(package@ =~= last_package(tree@, src@, all.take(0)));
    while i < nodes.len()
        invariant
            i <= nodes@.len(),
            tree.wf(),
            all == numbers(nodes@),
            f == declared_type(tree@, src@),
            forall|k: int| 0 <= k < nodes@.len() ==> #[trigger] nodes@[k] < tree@.len(),
            texts(types@) == all.take(i as int).filter_map(f),
            package@ == last_package(tree@, src@, all.take(i as int)),
        decreases nodes@.len() - i,
    {
        let c = nodes[i];
        let ghost was = texts(types@);
        proof {
            all.lemma_filter_map_take_succ(f, i as int);
            assert(all.take(i + 1).drop_last() =~= all.take(i as int));
            assert(all.take(i + 1).last() == c);
            assert(all[i as int] == c);
        }
        if is_kind(tree, c, "package_declaration") {
            if let Some(ident) = find_name(tree, c) {
                package = flatten_ident(tree, ident, src);
            }
        } else if is_type(tree, c) {
            if let Some(n) = child_by_field_name(tree, c, "name") {
                let name = node_text(tree, n, src);
                types.push(name.to_owned());
                assert(texts(types@) =~= was.push(name@));
            }
        }
        assert(texts(types@) =~= all.take(i + 1).filter_map(f));
        i = i + 1;
    }
    assert(all.take(all.len() as int) =~= all);
    FileHeader { package, types }
}

/// The imports of a file.
pub fn scan_imports(tree: &SyntaxTree, src: &str) -> (r: Vec<RawImport>)
    requires
        tree.wf(),
    ensures
        import_views(r@) == imports_of(tree@, src@),
{
    let nodes = tree.top_level();
    let ghost all = numbers(nodes@);
    let ghost f = import_of(tree@, src@);
    let mut out: Vec<RawImport> = Vec::new();
    let mut i: usize = 0;
    assert(all.take(0) =~= Seq::<int>::empty());
    assert(import_views(out@) =~= all.take(0).filter_map(f));
    while i < nodes.len()
        invariant
            i <= nodes@.len(),
            tree.wf(),
            all == numbers(nodes@),
            f == import_of(tree@, src@),
            forall|k: int| 0 <= k < nodes@.len() ==> #[trigger] nodes@[k] < tree@.len(),
            import_views(out@) == all.take(i as int).filter_map(f),
        decreases nodes@.len() - i,
    {
        let c = nodes[i];
        let ghost was = import_views(out@);
        proof {
            all.lemma_filter_map_take_succ(f, i as int);
            assert(all[i as int] == c);
        }
        if is_kind(tree, c, "import_declaration") {
            let is_static = has_child_kind(tree, c, "static");
            let is_wildcard = has_child_kind(tree, c, "asterisk");
            if let Some(ident) = find_name(tree, c) {
                let import = RawImport { path: flatten_ident(tree, ident, src), is_static, is_wildcard };
                let ghost v = import@;
                out.push(import);
                assert(import_views(out@) =~= was.push(v));
            }
        }
        assert(import_views(out@) =~= all.take(i + 1).filter_map(f));
        i = i + 1;
    }
    assert(all.take(all.len() as int) =~= all);
    out
}

/// A type by its full name, or else `name` as it is.
pub open spec fn type_target(types: Map<Text, Text>, path: Text, name: Text) -> Target {
    if types.contains_key(path) {
        Target::Internal(types[path])
    } else {
        Target::External(name)
    }
}

/// Holds for every file but one.
pub open spec fn other_than(rel: Text) -> spec_fn(Text) -> bool {
    |f: Text| f != rel
}

/// What an import leads to. `import pkg.*` leads to the other files of the
/// package, `import static pkg.Type.*` to the type, `import static
/// pkg.Type.member` to the type or else to what has the whole path as its
/// name, and any other import to the type.
pub open spec fn import_targets(index: IndexView, self_rel: Text) -> spec_fn(ImportView) -> Seq<Target> {
    |i: ImportView|
        if i.is_wildcard && !i.is_static {
            let others = files_of(index.packages, i.path).filter(other_than(self_rel));
            if others.len() == 0 {
                seq![Target::External(i.path + ".*"@)]
            } else {
                others.map_values(|f: Text| Target::Internal(f))
            }
        } else if i.is_wildcard {
            seq![type_target(index.types, i.path, i.path + ".*"@)]
        } else if i.is_static {
            match last_dot(i.path, 0, i.path.len() as int) {
                Some(k) if index.types.contains_key(i.path.take(k)) => seq![
                    Target::Internal(index.types[i.path.take(k)]),
                ],
                _ => seq![type_target(index.types, i.path, i.path)],
            }
        } else {
            seq![type_target(index.types, i.path, i.path)]
        }
}

/// The types of a file are found in it once it is in the index.
pub proof fn added_types_are_found(index: IndexView, rel: Text, header: HeaderView, k: int)
    requires
        0 <= k < header.types.len(),
    ensures
        type_target(
            with_file(index, rel, header).types,
            qualified(header.package, header.types[k]),
            qualified(header.package, header.types[k]),
        ) == Target::Internal(rel),
{
    lemma_with_types(index.types, rel, header.package, header.types, k);
}

proof fn lemma_with_types(index: Map<Text, Text>, rel: Text, package: Text, types: Seq<Text>, k: int)
    requires
        0 <= k < types.len(),
    ensures
        with_types(index, rel, package, types).contains_key(qualified(package, types[k])),
        with_types(index, rel, package, types)[qualified(package, types[k])] == rel,
    decreases types.len(),
{
    if k < types.len() - 1 {
        assert(types.drop_last()[k] == types[k]);
        lemma_with_types(index, rel, package, types.drop_last(), k);
    }
}

/// A file is one of the files of its package once it is in the index, and
/// those that were there before still are.
pub proof fn added_file_is_in_its_package(index: IndexView, rel: Text, header: HeaderView, other: Text)
    ensures
        files_of(with_file(index, rel, header).packages, header.package).contains(rel),
        files_of(index.packages, header.package).contains(other) ==> files_of(
            with_file(index, rel, header).packages,
            header.package,
        ).contains(other),
{
    let was = files_of(index.packages, header.package);
    let now = files_of(with_file(index, rel, header).packages, header.package);
    assert(now[was.len() as int] == rel);
    if was.contains(other) {
        let i = choose|i: int| 0 <= i < was.len() && was[i] == other;
        assert(now[i] == other);
    }
}

/// `import pkg.*` does not lead a file back to itself, and it does lead to
/// every other file of the package.
pub proof fn package_import_leads_to_the_others(
    index: IndexView,
    self_rel: Text,
    path: Text,
    other: Text,
)
    ensures
        ({
            let found = import_targets(index, self_rel)(
                (ImportView { path, is_static: false, is_wildcard: true }),
            );
            &&& !found.contains(Target::Internal(self_rel))
            &&& other != self_rel ==> (found.contains(Target::Internal(other)) <==> files_of(
                index.packages,
                path,
            ).contains(other))
        }),
{
    let files = files_of(index.packages, path);
    let f = other_than(self_rel);
    let others = files.filter(f);
    let g = |f: Text| Target::Internal(f);
    let found = import_targets(index, self_rel)(
        (ImportView { path, is_static: false, is_wildcard: true }),
    );
    if others.len() > 0 {
        assert(found =~= others.map_values(g));
        assert forall|k: int| 0 <= k < found.len() implies found[k] == Target::Internal(others[k])
            && others[k] != self_rel && files.contains(others[k]) by {
            files.lemma_filter_pred(f, k);
            assert(others.contains(others[k]));
            files.lemma_filter_contains_rev(f, others[k]);
        }
    }
    if other != self_rel && files.contains(other) {
        let i = choose|i: int| 0 <= i < files.len() && files[i] == other;
        files.lemma_filter_contains(f, i);
        let k = choose|k: int| 0 <= k < others.len() && others[k] == other;
        assert(found[k] == Target::Internal(other));
    }
}

/// What a file comes to.
pub open spec fn java_facts(
    imports: Seq<ImportView>,
    types: Seq<Text>,
    self_rel: Text,
    index: IndexView,
) -> Facts {
    Facts {
        dependencies: imports.flat_map(import_targets(index, self_rel)).map_values(whole()),
        exports: types,
        has_local_exports: types.len() > 0,
        has_reexports: false,
        name_sources: Seq::empty(),
        wildcard_fallbacks: Seq::empty(),
    }
}

/// A type by its full name, or else `name` as it is.
fn find_type(index: &JavaIndex, path: &str, name: &str) -> (r: DepRef)
    ensures
        r@ == type_target(index@.types, path@, name@),
{
    match index.type_index.get(path) {
        Some(f) => DepRef::Internal(f.clone()),
        None => DepRef::External(name.to_owned()),
    }
}

/// What stands before the last dot of a path.
fn before_last_dot(path: &str) -> (r: Option<String>)
    ensures
        match r {
            Some(front) => {
                &&& last_dot(path@, 0, path@.len() as int) is Some
                &&& front@ == path@.take(last_dot(path@, 0, path@.len() as int)->0)
            },
            None => last_dot(path@, 0, path@.len() as int) is None,
        },
{
    let chars = chars_of(path);
    let mut j: usize = chars.len();
    while j > 0 && chars[j - 1] != '.'
        invariant
            j <= chars@.len(),
            chars@ == path@,
            last_dot(path@, 0, path@.len() as int) == last_dot(path@, 0, j as int),
        decreases j,
    {
        j = j - 1;
    }
    if j == 0 {
        return None;
    }
    let front = string_of(&chars, 0, j - 1);
    assert(front@ =~= path@.take(j - 1));
    Some(front)
}

/// Appends the other files of a package; says whether there are any.
fn push_others(files: &Vec<String>, self_rel: &str, out: &mut Vec<DepRef>) -> (any: bool)
    ensures
        ({
            let others = texts(files@).filter(other_than(self_rel@));
            &&& any == (others.len() > 0)
            &&& targets(final(out)@) == targets(old(out)@) + others.map_values(
                |f: Text| Target::Internal(f),
            )
        }),
{
    let ghost was = targets(out@);
    let ghost all = texts(files@);
    let ghost f = other_than(self_rel@);
    let ghost g = |f: Text| Target::Internal(f);
    let mut any = false;
    let mut i: usize = 0;
    assert(all.take(0).filter(f) =~= Seq::<Text>::empty()) by {
        reveal(Seq::filter);
    }
    assert(targets(out@) =~= was + all.take(0).filter(f).map_values(g));
    while i < files.len()
        invariant
            i <= files@.len(),
            all == texts(files@),
            f == other_than(self_rel@),
            g == (|f: Text| Target::Internal(f)),
            any == (all.take(i as int).filter(f).len() > 0),
            targets(out@) == was + all.take(i as int).filter(f).map_values(g),
        decreases files@.len() - i,
    {
        let ghost so_far = all.take(i as int).filter(f);
        let ghost mid = targets(out@);
        assert(all.take(i + 1) =~= all.take(i as int).push(all[i as int]));
        proof {
            all.take(i as int).lemma_filter_push(all[i as int], f);
        }
        if !same(files[i].as_str(), self_rel) {
            out.push(DepRef::Internal(files[i].clone()));
            any = true;
            assert(targets(out@) =~= mid.push(Target::Internal(all[i as int])));
            assert(targets(out@) =~= was + so_far.push(all[i as int]).map_values(g));
        }
        i = i + 1;
    }
    assert(all.take(all.len() as int) =~= all);
    any
}

/// Appends one target.
fn push_target(target: DepRef, out: &mut Vec<DepRef>)
    ensures
        targets(final(out)@) == targets(old(out)@) + seq![target@],
{
    let ghost was = targets(out@);
    let ghost t = target@;
    out.push(target);
    assert(targets(out@) =~= was + seq![t]);
}

/// Appends what an import leads to.
fn push_targets(import: &RawImport, self_rel: &str, index: &JavaIndex, out: &mut Vec<DepRef>)
    ensures
        targets(final(out)@) == targets(old(out)@) + import_targets(index@, self_rel@)(import@),
{
    let path = import.path.as_str();
    if import.is_wildcard && !import.is_static {
        let ghost was = targets(out@);
        let any = match index.package_index.get(path) {
            Some(files) => push_others(files, self_rel, out),
            None => {
                assert(Seq::<Text>::empty().filter(other_than(self_rel@)).len() == 0) by {
                    reveal(Seq::filter);
                }
                false
            },
        };
        if !any {
            assert(targets(out@) =~= was);
            push_target(DepRef::External(join2(path, ".*")), out);
        }
    } else if import.is_wildcard {
        push_target(find_type(index, path, join2(path, ".*").as_str()), out);
    } else {
        if import.is_static {
            if let Some(front) = before_last_dot(path) {
                if let Some(f) = index.type_index.get(front.as_str()) {
                    push_target(DepRef::Internal(f.clone()), out);
                    return ;
                }
            }
        }
        push_target(find_type(index, path, path), out);
    }
}

/// What a file comes to.
pub fn resolve(imports: &[RawImport], types: &[String], self_rel: &str, index: &JavaIndex) -> (r:
    FileFacts)
    ensures
        r@ == java_facts(import_views(imports@), texts(types@), self_rel@, index@),
{
    let ghost all = import_views(imports@);
    let ghost f = import_targets(index@, self_rel@);
    let mut found: Vec<DepRef> = Vec::new();
    let mut i: usize = 0;
    assert(all.take(0) =~= Seq::<ImportView>::empty());
    assert(targets(found@) =~= all.take(0).flat_map(f));
    while i < imports.len()
        invariant
            i <= imports@.len(),
            all == import_views(imports@),
            f == import_targets(index@, self_rel@),
            targets(found@) == all.take(i as int).flat_map(f),
        decreases imports@.len() - i,
    {
        proof {
            all.lemma_flat_map_take_append(f, i as int);
        }
        push_targets(&imports[i], self_rel, index, &mut found);
        i = i + 1;
    }
    assert(all.take(all.len() as int) =~= all);
    let mut exports: Vec<String> = Vec::new();
    let mut k: usize = 0;
    while k < types.len()
        invariant
            k <= types@.len(),
            texts(exports@) =~= texts(types@).take(k as int),
        decreases types@.len() - k,
    {
        let ghost was = texts(exports@);
        exports.push(types[k].clone());
        assert(texts(exports@) =~= was.push(texts(types@)[k as int]));
        k = k + 1;
    }
    let facts = FileFacts {
        dependencies: whole_edges(found),
        exports,
        has_local_exports: types.len() > 0,
        has_reexports: false,
        name_sources: Vec::new(),
        wildcard_fallbacks: Vec::new(),
    };
    assert(facts@.exports =~= texts(types@));
    assert(facts@.name_sources =~= Seq::empty());
    assert(facts@.wildcard_fallbacks =~= Seq::empty());
    facts
}

} // verus!
