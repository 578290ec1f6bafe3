//! Python: imports, and the names that a module makes public.
use vstd::prelude::*;

use crate::disk::{
    agree, agree_on, first_file, first_file_asks_candidates_only, first_file_is_candidate, lemma_agree_both,
    lemma_agree_parts, local_file, Disk,
};
use crate::facts::{targets, whole, whole_edges, DepRef, Facts, FileFacts, Target};
use crate::path::{join, joined, parent, parent_of, starts_with_char};
use crate::syntax::{numbers, top_level, visits, NodeView, SyntaxTree};
use crate::text::{
    chars_of, copy_texts, ends_in, has_end, join2, join3, optional_text, replace_char, same, split, split_on,
    string_of, texts, with_char_replaced, Text,
};
use crate::tsutil::{
    child_by_field_name, children_by_field_name, children_of_kind, field_child, field_children, first_child_of_kind,
    is_kind, kind_child, kind_children, lemma_field_child, literal, node_text, string_literal_content, text_of,
};

verus! {

/// An import.
pub enum PyImport {
    /// `import a.b`.
    Module(String),
    /// `from module import names`; no names where everything is imported.
    From { module: String, relative: bool, names: Vec<String> },
}

/// The view of a [`PyImport`].
pub enum ImportView {
    Module(Text),
    From { module: Text, relative: bool, names: Seq<Text> },
}

impl View for PyImport {
    type V = ImportView;

    open spec fn view(&self) -> ImportView {
        match self {
            PyImport::Module(m) => ImportView::Module(m@),
            PyImport::From { module, relative, names } => ImportView::From {
                module: module@,
                relative: *relative,
                names: texts(names@),
            },
        }
    }
}

/// The views of a list of imports.
pub open spec fn import_views(list: Seq<PyImport>) -> Seq<ImportView> {
    list.map_values(|i: PyImport| i@)
}

/// What a module states.
pub struct Module {
    pub imports: Vec<PyImport>,
    /// The names in `__all__`; without one, the names that the module defines,
    /// and "*" for those that it may hold besides.
    pub exports: Vec<String>,
    /// Whether any name is among the exports.
    pub names_exports: bool,
    pub imports_at_top: bool,
}

/// The view of a [`Module`].
#[verifier::ext_equal]
pub struct ModuleView {
    pub imports: Seq<ImportView>,
    pub exports: Seq<Text>,
    pub names_exports: bool,
    pub imports_at_top: bool,
}

impl View for Module {
    type V = ModuleView;

    open spec fn view(&self) -> ModuleView {
        ModuleView {
            imports: import_views(self.imports@),
            exports: texts(self.exports@),
            names_exports: self.names_exports,
            imports_at_top: self.imports_at_top,
        }
    }
}

/// The text of a dotted name, or of the one that an alias stands for.
pub open spec fn dotted(t: Seq<NodeView>, src: Text, node: int) -> Option<Text>
    recommends
        0 <= node < t.len(),
    decreases t.len() - node,
{
    if 0 <= node < t.len() {
        proof {
            lemma_field_child(t, node, "name"@);
        }
        if t[node].kind == "dotted_name"@ {
            Some(text_of(t, src, node))
        } else if t[node].kind == "aliased_import"@ {
            match field_child(t, node, "name"@) {
                Some(inner) => dotted(t, src, inner),
                None => None,
            }
        } else {
            None
        }
    } else {
        None
    }
}

/// The text of a dotted name, for every node.
pub open spec fn dotted_name(t: Seq<NodeView>, src: Text) -> spec_fn(int) -> Option<Text> {
    |node: int| dotted(t, src, node)
}

/// The names of an import statement.
pub open spec fn imported_names(t: Seq<NodeView>, src: Text, node: int) -> Seq<Text> {
    field_children(t, node, "name"@).filter_map(dotted_name(t, src))
}

/// The import that a `from` statement makes.
pub open spec fn from_import(t: Seq<NodeView>, src: Text, node: int) -> Option<ImportView> {
    match field_child(t, node, "module_name"@) {
        Some(m) => {
            let names = if kind_child(t, node, "wildcard_import"@) is Some {
                Seq::empty()
            } else {
                imported_names(t, src, node)
            };
            if t[m].kind == "dotted_name"@ {
                Some(ImportView::From { module: text_of(t, src, m), relative: false, names })
            } else if t[m].kind == "relative_import"@ {
                Some(ImportView::From { module: text_of(t, src, m), relative: true, names })
            } else {
                None
            }
        },
        None => None,
    }
}

/// The imports that a node makes.
pub open spec fn node_imports(t: Seq<NodeView>, src: Text) -> spec_fn(int) -> Seq<ImportView> {
    |node: int|
        if t[node].kind == "import_statement"@ {
            imported_names(t, src, node).map_values(|m: Text| ImportView::Module(m))
        } else if t[node].kind == "import_from_statement"@ {
            match from_import(t, src, node) {
                Some(i) => seq![i],
                None => Seq::empty(),
            }
        } else {
            Seq::empty()
        }
}

/// The strings of a list or a tuple.
pub open spec fn string_list(t: Seq<NodeView>, src: Text, node: int) -> Seq<Text> {
    if t[node].kind == "list"@ || t[node].kind == "tuple"@ {
        kind_children(t, node, "string"@).filter_map(|s: int| literal(t, src, s))
    } else {
        Seq::empty()
    }
}

/// The assignment that a statement makes to a single name.
pub open spec fn assigned(t: Seq<NodeView>, statement: int) -> Option<(int, int)> {
    if t[statement].kind == "expression_statement"@ {
        match kind_child(t, statement, "assignment"@) {
            Some(a) => match field_child(t, a, "left"@) {
                Some(left) if t[left].kind == "identifier"@ => Some((a, left)),
                _ => None,
            },
            None => None,
        }
    } else {
        None
    }
}

/// The name that a statement defines: that of a function, a class, or a
/// variable that does not start with an underscore.
pub open spec fn defined(t: Seq<NodeView>, src: Text) -> spec_fn(int) -> Option<Text> {
    |c: int|
        if t[c].kind == "function_definition"@ || t[c].kind == "class_definition"@ {
            match field_child(t, c, "name"@) {
                Some(n) => Some(text_of(t, src, n)),
                None => None,
            }
        } else {
            match assigned(t, c) {
                Some((_, left)) => {
                    let name = text_of(t, src, left);
                    if name != "__all__"@ && !(name.len() > 0 && name[0] == '_') {
                        Some(name)
                    } else {
                        None
                    }
                },
                None => None,
            }
        }
}

/// The names that a statement lists as `__all__`.
pub open spec fn listed(t: Seq<NodeView>, src: Text, c: int) -> Option<Seq<Text>> {
    if t[c].kind == "function_definition"@ || t[c].kind == "class_definition"@ {
        None
    } else {
        match assigned(t, c) {
            Some((a, left)) => if text_of(t, src, left) == "__all__"@ {
                match field_child(t, a, "right"@) {
                    Some(right) => Some(string_list(t, src, right)),
                    None => None,
                }
            } else {
                None
            },
            None => None,
        }
    }
}

/// The names that the last `__all__` of some statements lists.
pub open spec fn last_listed(t: Seq<NodeView>, src: Text, statements: Seq<int>) -> Option<Seq<Text>>
    decreases statements.len(),
{
    if statements.len() == 0 {
        None
    } else {
        match listed(t, src, statements.last()) {
            Some(names) => Some(names),
            None => last_listed(t, src, statements.drop_last()),
        }
    }
}

/// Whether a node is an import.
pub open spec fn is_import(t: Seq<NodeView>, node: int) -> bool {
    t[node].kind == "import_statement"@ || t[node].kind == "import_from_statement"@
}

/// What a module states: its imports anywhere, and the names that its top
/// level makes public, which `__all__` lists where there is one. Without one,
/// "*" stands behind the names that the top level defines.
pub open spec fn module_of(t: Seq<NodeView>, src: Text) -> ModuleView {
    ModuleView {
        imports: visits(t).flat_map(node_imports(t, src)),
        exports: match last_listed(t, src, top_level(t)) {
            Some(names) => names,
            None => top_level(t).filter_map(defined(t, src)).push("*"@),
        },
        names_exports: match last_listed(t, src, top_level(t)) {
            Some(names) => names.len() > 0,
            None => top_level(t).filter_map(defined(t, src)).len() > 0,
        },
        imports_at_top: exists|k: int| 0 <= k < top_level(t).len() && is_import(t, #[trigger] top_level(t)[k]),
    }
}

/// A module exports "*" where no `__all__` lists its names, and then counts as
/// having exports of its own exactly where it defines a name.
pub proof fn unlisted_names_are_open(t: Seq<NodeView>, src: Text)
    requires
        last_listed(t, src, top_level(t)) is None,
    ensures
        module_of(t, src).exports.contains("*"@),
        module_of(t, src).names_exports <==> exists|k: int|
            0 <= k < top_level(t).len() && defined(t, src)(#[trigger] top_level(t)[k]) is Some,
{
    assert(module_of(t, src).exports.last() == "*"@);
    lemma_filter_map_empty(top_level(t), defined(t, src));
}

proof fn lemma_filter_map_empty(list: Seq<int>, f: spec_fn(int) -> Option<Text>)
    ensures
        list.filter_map(f).len() > 0 <==> exists|k: int|
            0 <= k < list.len() && f(#[trigger] list[k]) is Some,
    decreases list.len(),
{
    reveal(Seq::filter_map);
    if list.len() > 0 {
        let front = list.drop_last();
        lemma_filter_map_empty(front, f);
        list.lemma_filter_map_take_succ(f, list.len() - 1);
        assert(list.take(list.len() as int) =~= list);
        assert(list.take(list.len() - 1) =~= front);
        if front.filter_map(f).len() > 0 {
            let k = choose|k: int| 0 <= k < front.len() && f(#[trigger] front[k]) is Some;
            assert(list[k] == front[k]);
        }
        if f(list.last()) is Some {
            assert(f(list[list.len() - 1]) is Some);
        }
        if exists|k: int| 0 <= k < list.len() && f(#[trigger] list[k]) is Some {
            let k = choose|k: int| 0 <= k < list.len() && f(#[trigger] list[k]) is Some;
            if k < front.len() {
                assert(front[k] == list[k]);
            }
        }
    }
}

/// The strings of a list or a tuple.
pub fn extract_string_list(tree: &SyntaxTree, node: usize, src: &str) -> (r: Vec<String>)
    requires
        tree.wf(),
        node < tree@.len(),
    ensures
        texts(r@) == string_list(tree@, src@, node as int),
{
    let mut out: Vec<String> = Vec::new();
    if !is_kind(tree, node, "list") && !is_kind(tree, node, "tuple") {
        assert(texts(out@) =~= Seq::<Text>::empty());
        return out;
    }
    let kids = children_of_kind(tree, node, "string");
    let ghost all = numbers(kids@);
    let ghost f = |s: int| literal(tree@, src@, s);
    let mut i: usize = 0;
    assert(all.take(0) =~= Seq::<int>::empty());
    assert(texts(out@) =~= all.take(0).filter_map(f));
    while i < kids.len()
        invariant
            i <= kids@.len(),
            tree.wf(),
            all == numbers(kids@),
            f == (|s: int| literal(tree@, src@, s)),
            forall|k: int| 0 <= k < kids@.len() ==> #[trigger] kids@[k] < tree@.len(),
            texts(out@) == all.take(i as int).filter_map(f),
        decreases kids@.len() - i,
    {
        let ghost was = texts(out@);
        proof {
            all.lemma_filter_map_take_succ(f, i as int);
        }
        if let Some(s) = string_literal_content(tree, kids[i], src) {
            out.push(s);
            assert(texts(out@) =~= was.push(s@));
        }
        assert(texts(out@) =~= all.take(i + 1).filter_map(f));
        i = i + 1;
    }
    assert(all.take(all.len() as int) =~= all);
    out
}

/// The text of a dotted name, or of the one that an alias stands for.
pub fn dotted_name_text(tree: &SyntaxTree, node: usize, src: &str) -> (r: Option<String>)
    requires
        tree.wf(),
        node < tree@.len(),
    ensures
        optional_text(r) == dotted(tree@, src@, node as int),
    decreases tree@.len() - node,
{
    proof {
        lemma_field_child(tree@, node as int, "name"@);
    }
    if is_kind(tree, node, "dotted_name") {
        Some(node_text(tree, node, src).to_owned())
    } else if is_kind(tree, node, "aliased_import") {
        match child_by_field_name(tree, node, "name") {
            Some(inner) => dotted_name_text(tree, inner, src),
            None => None,
        }
    } else {
        None
    }
}

/// The names of an import statement.
fn list_names(tree: &SyntaxTree, node: usize, src: &str) -> (r: Vec<String>)
    requires
        tree.wf(),
        node < tree@.len(),
    ensures
        texts(r@) == imported_names(tree@, src@, node as int),
{
    let kids = children_by_field_name(tree, node, "name");
    let ghost all = numbers(kids@);
    let ghost f = dotted_name(tree@, src@);
    let mut out: Vec<String> = Vec::new();
    let mut i: usize = 0;
    assert(all.take(0) =~= Seq::<int>::empty());
    assert(texts(out@) =~= all.take(0).filter_map(f));
    while i < kids.len()
        invariant
            i <= kids@.len(),
            tree.wf(),
            all == numbers(kids@),
            f == dotted_name(tree@, src@),
            forall|k: int| 0 <= k < kids@.len() ==> #[trigger] kids@[k] < tree@.len(),
            texts(out@) == all.take(i as int).filter_map(f),
        decreases kids@.len() - i,
    {
        let ghost was = texts(out@);
        proof {
            all.lemma_filter_map_take_succ(f, i as int);
        }
        if let Some(s) = dotted_name_text(tree, kids[i], src) {
            out.push(s);
            assert(texts(out@) =~= was.push(s@));
        }
        assert(texts(out@) =~= all.take(i + 1).filter_map(f));
        i = i + 1;
    }
    assert(all.take(all.len() as int) =~= all);
    out
}

/// Takes note of an import statement.
pub fn handle_import_statement(tree: &SyntaxTree, node: usize, src: &str, imports: &mut Vec<PyImport>)
    requires
        tree.wf(),
        node < tree@.len(),
    ensures
        import_views(final(imports)@) == import_views(old(imports)@) + imported_names(
            tree@,
            src@,
            node as int,
        ).map_values(|m: Text| ImportView::Module(m)),
{
    let names = list_names(tree, node, src);
    let ghost was = import_views(imports@);
    let ghost all = texts(names@).map_values(|m: Text| ImportView::Module(m));
    let mut i: usize = 0;
    assert(import_views(imports@) =~= was + all.take(0));
    while i < names.len()
        invariant
            i <= names@.len(),
            all == texts(names@).map_values(|m: Text| ImportView::Module(m)),
            import_views(imports@) =~= was + all.take(i as int),
        decreases names@.len() - i,
    {
        let ghost mid = import_views(imports@);
        imports.push(PyImport::Module(names[i].clone()));
        assert(import_views(imports@) =~= mid.push(all[i as int]));
        i = i + 1;
    }
    assert(all.take(all.len() as int) =~= all);
}

/// Takes note of a `from` statement.
pub fn handle_import_from_statement(
    tree: &SyntaxTree,
    node: usize,
    src: &str,
    imports: &mut Vec<PyImport>,
)
    requires
        tree.wf(),
        node < tree@.len(),
    ensures
        import_views(final(imports)@) == import_views(old(imports)@) + (match from_import(
            tree@,
            src@,
            node as int,
        ) {
            Some(i) => seq![i],
            None => Seq::empty(),
        }),
{
    let ghost was = import_views(imports@);
    let m = match child_by_field_name(tree, node, "module_name") {
        Some(m) => m,
        None => {
            return ;
        },
    };
    let relative = is_kind(tree, m, "relative_import");
    if !relative && !is_kind(tree, m, "dotted_name") {
        return ;
    }
    assert(relative ==> tree@[m as int].kind != "dotted_name"@) by {
        reveal_strlit("dotted_name");
        reveal_strlit("relative_import");
        assert("dotted_name"@.len() != "relative_import"@.len());
    }
    let names = if first_child_of_kind(tree, node, "wildcard_import").is_some() {
        let none: Vec<String> = Vec::new();
        assert(texts(none@) =~= Seq::<Text>::empty());
        none
    } else {
        list_names(tree, node, src)
    };
    let import = PyImport::From { module: node_text(tree, m, src).to_owned(), relative, names };
    let ghost i = import@;
    imports.push(import);
    assert(import_views(imports@) =~= was + seq![i]);
}

/// The assignment that a statement makes to a single name.
fn find_assigned(tree: &SyntaxTree, statement: usize) -> (r: Option<(usize, usize)>)
    requires
        tree.wf(),
        statement < tree@.len(),
    ensures
        match r {
            Some((a, left)) => {
                &&& a < tree@.len()
                &&& left < tree@.len()
                &&& assigned(tree@, statement as int) == Some((a as int, left as int))
            },
            None => assigned(tree@, statement as int) is None,
        },
{
    if is_kind(tree, statement, "expression_statement") {
        if let Some(a) = first_child_of_kind(tree, statement, "assignment") {
            if let Some(left) = child_by_field_name(tree, a, "left") {
                if is_kind(tree, left, "identifier") {
                    return Some((a, left));
                }
            }
        }
    }
    None
}

/// What a module states.
pub fn scan(tree: &SyntaxTree, src: &str) -> (r: Module)
    requires
        tree.wf(),
    ensures
        r@ == module_of(tree@, src@),
{
    let imports = list_imports(tree, src);
    let statements = tree.top_level();
    let ghost all = numbers(statements@);
    let ghost f = defined(tree@, src@);
    let mut names: Vec<String> = Vec::new();
    let mut public: Option<Vec<String>> = None;
    let mut imports_at_top = false;
    let mut i: usize = 0;
    assert(all.take(0) =~= Seq::<int>::empty());
    assert(texts(names@) =~= all.take(0).filter_map(f));
    while i < statements.len()
        invariant
            i <= statements@.len(),
            tree.wf(),
            all == numbers(statements@),
            f == defined(tree@, src@),
            forall|k: int| 0 <= k < statements@.len() ==> #[trigger] statements@[k] < tree@.len(),
            texts(names@) == all.take(i as int).filter_map(f),
            match public {
                Some(list) => last_listed(tree@, src@, all.take(i as int)) == Some(texts(list@)),
                None => last_listed(tree@, src@, all.take(i as int)) is None,
            },
            imports_at_top == exists|k: int| 0 <= k < i && is_import(tree@, #[trigger] all[k]),
        decreases statements@.len() - i,
    {
        let c = statements[i];
        let ghost was = texts(names@);
        proof {
            all.lemma_filter_map_take_succ(f, i as int);
            assert(all.take(i + 1).drop_last() =~= all.take(i as int));
            assert(all.take(i + 1).last() == all[i as int]);
            assert(all[i as int] == c);
        }
        if is_kind(tree, c, "import_statement") || is_kind(tree, c, "import_from_statement") {
            imports_at_top = true;
            assert(is_import(tree@, all[i as int]));
        }
        if is_kind(tree, c, "function_definition") || is_kind(tree, c, "class_definition") {
            if let Some(n) = child_by_field_name(tree, c, "name") {
                let name = node_text(tree, n, src);
                names.push(name.to_owned());
                assert(texts(names@) =~= was.push(name@));
            }
        } else if let Some((a, left)) = find_assigned(tree, c) {
            let name = node_text(tree, left, src);
            if same(name, "__all__") {
                if let Some(right) = child_by_field_name(tree, a, "right") {
                    public = Some(extract_string_list(tree, right, src));
                }
            } else if !starts_with_char(name, '_') {
                names.push(name.to_owned());
                assert(texts(names@) =~= was.push(name@));
            }
        }
        assert(texts(names@) =~= all.take(i + 1).filter_map(f));
        i = i + 1;
    }
    assert(all.take(all.len() as int) =~= all);
    let open = public.is_none();
    let mut exports = match public {
        Some(list) => list,
        None => names,
    };
    let names_exports = exports.len() > 0;
    if open {
        let ghost was = texts(exports@);
        exports.push("*".to_owned());
        assert(texts(exports@) =~= was.push("*"@));
    }
    Module { imports, exports, names_exports, imports_at_top }
}

/// The imports of a module.
fn list_imports(tree: &SyntaxTree, src: &str) -> (r: Vec<PyImport>)
    requires
        tree.wf(),
    ensures
        import_views(r@) == visits(tree@).flat_map(node_imports(tree@, src@)),
{
    let order = tree.visits();
    let ghost all = numbers(order@);
    let ghost f = node_imports(tree@, src@);
    let mut imports: Vec<PyImport> = Vec::new();
    let mut i: usize = 0;
    assert(all.take(0) =~= Seq::<int>::empty());
    assert(import_views(imports@) =~= all.take(0).flat_map(f));
    while i < order.len()
        invariant
            i <= order@.len(),
            tree.wf(),
            all == numbers(order@),
            f == node_imports(tree@, src@),
            forall|k: int| 0 <= k < order@.len() ==> #[trigger] order@[k] < tree@.len(),
            import_views(imports@) == all.take(i as int).flat_map(f),
        decreases order@.len() - i,
    {
        let node = order[i];
        let ghost was = import_views(imports@);
        proof {
            all.lemma_flat_map_take_append(f, i as int);
        }
        if is_kind(tree, node, "import_statement") {
            handle_import_statement(tree, node, src, &mut imports);
        } else if is_kind(tree, node, "import_from_statement") {
            handle_import_from_statement(tree, node, src, &mut imports);
        } else {
            assert(was + Seq::<ImportView>::empty() =~= was);
        }
        i = i + 1;
    }
    assert(all.take(all.len() as int) =~= all);
    imports
}

/// How many dots a text starts with.
pub open spec fn leading_dots(s: Text) -> nat
    decreases s.len(),
{
    if s.len() > 0 && s[0] == '.' {
        1 + leading_dots(s.skip(1))
    } else {
        0
    }
}

/// The directory `n` levels above another.
pub open spec fn climbed(dir: Text, n: nat) -> Option<Text>
    decreases n,
{
    if n == 0 {
        Some(dir)
    } else {
        match parent(dir) {
            Some(above) => climbed(above, (n - 1) as nat),
            None => None,
        }
    }
}

/// The path that leads from a directory through some names.
pub open spec fn descended(dir: Text, names: Seq<Text>) -> Text
    decreases names.len(),
{
    if names.len() == 0 {
        dir
    } else {
        join(descended(dir, names.drop_last()), names.last())
    }
}

/// Where a relative module lies: one dot is the directory of the importing
/// file, each further dot one level up, and names lead down from there. None
/// where there is no dot or no such level.
pub open spec fn relative_base(dir: Text, module: Text) -> Option<Text> {
    let dots = leading_dots(module);
    let rest = module.skip(dots as int);
    if dots == 0 {
        None
    } else {
        match climbed(dir, (dots - 1) as nat) {
            Some(from) => Some(
                if rest.len() == 0 {
                    from
                } else {
                    descended(from, split(rest, '.'))
                },
            ),
            None => None,
        }
    }
}

/// Where an absolute module lies.
pub open spec fn absolute_base(root: Text, module: Text) -> Text {
    join(root, replace_char(module, '.', '/'))
}

/// The files that a module can be: a package, or a file of its name.
pub open spec fn module_candidates(base: Text) -> Seq<Text> {
    seq![join(base, "__init__.py"@), base + ".py"@]
}

/// The files that a name in a module can be, as a module of its own.
pub open spec fn submodule_candidates(base: Text, name: Text) -> Seq<Text> {
    seq![join(base, name + ".py"@), join(join(base, name), "__init__.py"@)]
}

/// The path below the root of the first of some files that exists.
pub open spec fn found(disk: Map<Text, Option<Text>>, root: Text, candidates: Seq<Text>) -> Option<Text> {
    match first_file(disk, candidates) {
        Some(path) => local_file(disk, root, path),
        None => None,
    }
}

/// The module at `base`, or else `name` as it is.
pub open spec fn module_target(disk: Map<Text, Option<Text>>, root: Text, base: Text, name: Text) -> Target {
    match found(disk, root, module_candidates(base)) {
        Some(p) => Target::Internal(p),
        None => Target::External(name),
    }
}

/// What a name of a module leads to: to a module of its own, or else to the
/// module it is imported from.
pub open spec fn name_target(
    disk: Map<Text, Option<Text>>,
    root: Text,
    base: Text,
    module: Text,
) -> spec_fn(Text) -> Target {
    |name: Text|
        match found(disk, root, submodule_candidates(base, name)) {
            Some(p) => Target::Internal(p),
            None => module_target(disk, root, base, module + "."@ + name),
        }
}

/// Where the module of an import lies.
pub open spec fn import_base(root: Text, dir: Text, module: Text, relative: bool) -> Option<Text> {
    if relative {
        relative_base(dir, module)
    } else {
        Some(absolute_base(root, module))
    }
}

/// What an import leads to.
pub open spec fn import_targets(
    disk: Map<Text, Option<Text>>,
    root: Text,
    dir: Text,
) -> spec_fn(ImportView) -> Seq<Target> {
    |i: ImportView|
        match i {
            ImportView::Module(m) => seq![module_target(disk, root, absolute_base(root, m), m)],
            ImportView::From { module, relative, names } => match import_base(root, dir, module, relative) {
                None => seq![Target::External(module)],
                Some(base) => if names.len() == 0 {
                    seq![module_target(disk, root, base, module)]
                } else {
                    names.map_values(name_target(disk, root, base, module))
                },
            },
        }
}

/// What a module comes to. Only an `__init__.py` re-exports what it imports at
/// its top level.
pub open spec fn module_facts(
    module: ModuleView,
    disk: Map<Text, Option<Text>>,
    root: Text,
    dir: Text,
    file_rel: Text,
) -> Facts {
    Facts {
        dependencies: module.imports.flat_map(import_targets(disk, root, dir)).map_values(whole()),
        exports: module.exports,
        has_local_exports: module.names_exports,
        has_reexports: has_end(file_rel, "__init__.py"@) && module.imports_at_top,
        name_sources: Seq::empty(),
        wildcard_fallbacks: Seq::empty(),
    }
}

/// The files that are looked for when a name of a module is resolved.
pub open spec fn name_probes(base: Text) -> spec_fn(Text) -> Seq<Text> {
    |name: Text| submodule_candidates(base, name)
}

/// The files that are looked for when an import is resolved.
pub open spec fn import_probes(root: Text, dir: Text) -> spec_fn(ImportView) -> Seq<Text> {
    |i: ImportView|
        match i {
            ImportView::Module(m) => module_candidates(absolute_base(root, m)),
            ImportView::From { module, relative, names } => match import_base(root, dir, module, relative) {
                None => Seq::empty(),
                Some(base) => module_candidates(base) + names.flat_map(name_probes(base)),
            },
        }
}

/// Every file that is looked for when the imports of a module are resolved.
pub open spec fn module_probes(module: ModuleView, root: Text, dir: Text) -> Seq<Text> {
    module.imports.flat_map(import_probes(root, dir))
}

proof fn lemma_found(a: Map<Text, Option<Text>>, b: Map<Text, Option<Text>>, root: Text, candidates: Seq<Text>)
    requires
        agree_on(a, b, candidates),
    ensures
        found(a, root, candidates) == found(b, root, candidates),
{
    first_file_asks_candidates_only(a, b, candidates);
    first_file_is_candidate(a, candidates);
    if first_file(a, candidates) is Some {
        let path = first_file(a, candidates)->0;
        let i = choose|i: int| 0 <= i < candidates.len() && candidates[i] == path;
        assert(agree(a, b, candidates[i]));
    }
}

proof fn lemma_import_targets(
    a: Map<Text, Option<Text>>,
    b: Map<Text, Option<Text>>,
    root: Text,
    dir: Text,
    i: ImportView,
)
    requires
        agree_on(a, b, import_probes(root, dir)(i)),
    ensures
        import_targets(a, root, dir)(i) == import_targets(b, root, dir)(i),
{
    match i {
        ImportView::Module(m) => {
            lemma_found(a, b, root, module_candidates(absolute_base(root, m)));
        },
        ImportView::From { module, relative, names } => {
            if let Some(base) = import_base(root, dir, module, relative) {
                lemma_agree_both(a, b, module_candidates(base), names.flat_map(name_probes(base)));
                lemma_found(a, b, root, module_candidates(base));
                lemma_agree_parts(a, b, names, name_probes(base));
                let x = names.map_values(name_target(a, root, base, module));
                let y = names.map_values(name_target(b, root, base, module));
                assert forall|k: int| 0 <= k < names.len() implies x[k] == y[k] by {
                    assert(agree_on(a, b, name_probes(base)(names[k])));
                    lemma_found(a, b, root, submodule_candidates(base, names[k]));
                }
                assert(x =~= y);
            }
        },
    }
}

proof fn lemma_flat_map_same<A, B>(list: Seq<A>, f: spec_fn(A) -> Seq<B>, g: spec_fn(A) -> Seq<B>)
    requires
        forall|k: int| 0 <= k < list.len() ==> f(#[trigger] list[k]) == g(list[k]),
    ensures
        list.flat_map(f) == list.flat_map(g),
    decreases list.len(),
{
    if list.len() > 0 {
        let front = list.drop_last();
        list.lemma_flat_map_take_append(f, list.len() - 1);
        list.lemma_flat_map_take_append(g, list.len() - 1);
        assert(list.take(list.len() as int) =~= list);
        assert(list.take(list.len() - 1) =~= front);
        assert forall|k: int| 0 <= k < front.len() implies f(#[trigger] front[k]) == g(front[k]) by {
            assert(front[k] == list[k]);
        }
        lemma_flat_map_same(front, f, g);
        assert(list[list.len() - 1] == list.last());
    } else {
        assert(list =~= Seq::<A>::empty());
        assert(list.flat_map(f) =~= list.flat_map(g));
    }
}

/// What a module comes to depends on what is known of the files that are
/// looked for alone.
pub proof fn facts_ask_probes_only(
    module: ModuleView,
    root: Text,
    dir: Text,
    file_rel: Text,
    a: Map<Text, Option<Text>>,
    b: Map<Text, Option<Text>>,
)
    requires
        agree_on(a, b, module_probes(module, root, dir)),
    ensures
        module_facts(module, a, root, dir, file_rel) == module_facts(module, b, root, dir, file_rel),
{
    lemma_agree_parts(a, b, module.imports, import_probes(root, dir));
    assert forall|k: int| 0 <= k < module.imports.len() implies import_targets(a, root, dir)(
        #[trigger] module.imports[k],
    ) == import_targets(b, root, dir)(module.imports[k]) by {
        assert(agree_on(a, b, import_probes(root, dir)(module.imports[k])));
        lemma_import_targets(a, b, root, dir, module.imports[k]);
    }
    lemma_flat_map_same(module.imports, import_targets(a, root, dir), import_targets(b, root, dir));
}

/// Where a relative module lies.
pub fn resolve_relative_base_dir(importer_dir: &str, rel_spec: &str) -> (r: Option<String>)
    ensures
        optional_text(r) == relative_base(importer_dir@, rel_spec@),
{
    let chars = chars_of(rel_spec);
    let n = chars.len();
    let mut dots: usize = 0;
    assert(rel_spec@.skip(0) =~= rel_spec@);
    while dots < n && chars[dots] == '.'
        invariant
            dots <= n == chars@.len(),
            chars@ == rel_spec@,
            leading_dots(rel_spec@) == dots + leading_dots(rel_spec@.skip(dots as int)),
        decreases n - dots,
    {
        assert(rel_spec@.skip(dots as int).skip(1) =~= rel_spec@.skip(dots + 1));
        dots = dots + 1;
    }
    assert(leading_dots(rel_spec@) == dots);
    if dots == 0 {
        return None;
    }
    let mut dir = importer_dir.to_owned();
    let mut left: usize = dots - 1;
    while left > 0
        invariant
            climbed(importer_dir@, (dots - 1) as nat) == climbed(dir@, left as nat),
            dots > 0,
            leading_dots(rel_spec@) == dots,
        decreases left,
    {
        match parent_of(dir.as_str()) {
            Some(above) => {
                dir = above;
            },
            None => {
                return None;
            },
        }
        left = left - 1;
    }
    let rest = string_of(&chars, dots, n);
    assert(rest@ =~= rel_spec@.skip(dots as int));
    if dots < n {
        let names = split_on(rest.as_str(), '.');
        let ghost all = texts(names@);
        let ghost from = dir@;
        let mut i: usize = 0;
        assert(dir@ == descended(from, all.take(0)));
        while i < names.len()
            invariant
                i <= names@.len(),
                all == texts(names@),
                dir@ == descended(from, all.take(i as int)),
            decreases names@.len() - i,
        {
            assert(all.take(i + 1).drop_last() =~= all.take(i as int));
            assert(all.take(i + 1).last() == all[i as int]);
            dir = joined(dir.as_str(), names[i].as_str());
            i = i + 1;
        }
        assert(all.take(all.len() as int) =~= all);
    }
    Some(dir)
}

/// The files that a module can be.
fn list_module_candidates(base: &str) -> (r: Vec<String>)
    ensures
        texts(r@) == module_candidates(base@),
{
    let mut out: Vec<String> = Vec::new();
    out.push(joined(base, "__init__.py"));
    out.push(join2(base, ".py"));
    assert(texts(out@) =~= module_candidates(base@));
    out
}

/// The files that a name in a module can be.
fn list_submodule_candidates(base: &str, name: &str) -> (r: Vec<String>)
    ensures
        texts(r@) == submodule_candidates(base@, name@),
{
    let mut out: Vec<String> = Vec::new();
    out.push(joined(base, join2(name, ".py").as_str()));
    out.push(joined(joined(base, name).as_str(), "__init__.py"));
    assert(texts(out@) =~= submodule_candidates(base@, name@));
    out
}

/// The path below the root of the first of some files that exists.
fn find_local(root: &str, candidates: &Vec<String>, disk: &Disk) -> (r: Option<String>)
    ensures
        optional_text(r) == found(disk@, root@, texts(candidates@)),
{
    match disk.find(candidates) {
        Some(path) => disk.local(root, path.as_str()),
        None => None,
    }
}

/// The file of the module at `base_dir`.
pub fn resolve_base_dir(root: &str, base_dir: &str, disk: &Disk) -> (r: Option<String>)
    ensures
        optional_text(r) == found(disk@, root@, module_candidates(base_dir@)),
{
    let candidates = list_module_candidates(base_dir);
    find_local(root, &candidates, disk)
}

/// The file of a name of the module at `base_dir`, as a module of its own.
pub fn resolve_submodule(root: &str, base_dir: &str, name: &str, disk: &Disk) -> (r: Option<String>)
    ensures
        optional_text(r) == found(disk@, root@, submodule_candidates(base_dir@, name@)),
{
    let candidates = list_submodule_candidates(base_dir, name);
    find_local(root, &candidates, disk)
}

/// The module at `base_dir`, or else `base_spec` as it is.
pub fn resolve_base_or_external(root: &str, base_dir: &str, base_spec: &str, disk: &Disk) -> (r: DepRef)
    ensures
        r@ == module_target(disk@, root@, base_dir@, base_spec@),
{
    match resolve_base_dir(root, base_dir, disk) {
        Some(p) => DepRef::Internal(p),
        None => DepRef::External(base_spec.to_owned()),
    }
}

/// Where an absolute module lies.
fn absolute_base_dir(root: &str, module: &str) -> (r: String)
    ensures
        r@ == absolute_base(root@, module@),
{
    joined(root, with_char_replaced(module, '.', '/').as_str())
}

/// What `import dotted` leads to.
pub fn resolve_absolute_module(root: &str, dotted: &str, disk: &Disk) -> (r: DepRef)
    ensures
        r@ == module_target(disk@, root@, absolute_base(root@, dotted@), dotted@),
{
    let base = absolute_base_dir(root, dotted);
    resolve_base_or_external(root, base.as_str(), dotted, disk)
}

/// Where the module of an import lies.
fn find_import_base(root: &str, importer_dir: &str, module: &str, relative: bool) -> (r: Option<String>)
    ensures
        optional_text(r) == import_base(root@, importer_dir@, module@, relative),
{
    if relative {
        resolve_relative_base_dir(importer_dir, module)
    } else {
        Some(absolute_base_dir(root, module))
    }
}

/// Appends what an import leads to.
fn push_targets(import: &PyImport, root: &str, importer_dir: &str, disk: &Disk, out: &mut Vec<DepRef>)
    ensures
        targets(final(out)@) == targets(old(out)@) + import_targets(disk@, root@, importer_dir@)(import@),
{
    let ghost was = targets(out@);
    match import {
        PyImport::Module(m) => {
            let target = resolve_absolute_module(root, m.as_str(), disk);
            let ghost t = target@;
            out.push(target);
            assert(targets(out@) =~= was + seq![t]);
        },
        PyImport::From { module, relative, names } => {
            let base = match find_import_base(root, importer_dir, module.as_str(), *relative) {
                Some(base) => base,
                None => {
                    out.push(DepRef::External(module.clone()));
                    assert(targets(out@) =~= was + seq![Target::External(module@)]);
                    return ;
                },
            };
            if names.len() == 0 {
                let target = resolve_base_or_external(root, base.as_str(), module.as_str(), disk);
                let ghost t = target@;
                out.push(target);
                assert(targets(out@) =~= was + seq![t]);
                return ;
            }
            let ghost all = texts(names@).map_values(name_target(disk@, root@, base@, module@));
            let mut i: usize = 0;
            assert(targets(out@) =~= was + all.take(0));
            while i < names.len()
                invariant
                    i <= names@.len(),
                    all == texts(names@).map_values(name_target(disk@, root@, base@, module@)),
                    targets(out@) == was + all.take(i as int),
                decreases names@.len() - i,
            {
                let ghost mid = targets(out@);
                let name = names[i].as_str();
                let target = match resolve_submodule(root, base.as_str(), name, disk) {
                    Some(sub) => DepRef::Internal(sub),
                    None => resolve_base_or_external(
                        root,
                        base.as_str(),
                        join3(module.as_str(), ".", name).as_str(),
                        disk,
                    ),
                };
                assert(target@ == all[i as int]);
                out.push(target);
                assert(targets(out@) =~= mid.push(all[i as int]));
                assert(targets(out@) =~= was + all.take(i + 1));
                i = i + 1;
            }
            assert(all.take(all.len() as int) =~= all);
        },
    }
}

/// Appends a list of paths to another.
fn push_paths(more: Vec<String>, out: &mut Vec<String>)
    ensures
        texts(final(out)@) == texts(old(out)@) + texts(more@),
{
    let ghost was = texts(out@);
    let mut rest = more;
    let ghost added = texts(rest@);
    out.append(&mut rest);
    assert(texts(out@) =~= was + added);
}

/// Appends the files that are looked for when an import is resolved.
fn push_probes(import: &PyImport, root: &str, importer_dir: &str, out: &mut Vec<String>)
    ensures
        texts(final(out)@) == texts(old(out)@) + import_probes(root@, importer_dir@)(import@),
{
    let ghost was = texts(out@);
    match import {
        PyImport::Module(m) => {
            let base = absolute_base_dir(root, m.as_str());
            push_paths(list_module_candidates(base.as_str()), out);
        },
        PyImport::From { module, relative, names } => {
            let base = match find_import_base(root, importer_dir, module.as_str(), *relative) {
                Some(base) => base,
                None => {
                    assert(was + Seq::<Text>::empty() =~= was);
                    return ;
                },
            };
            push_paths(list_module_candidates(base.as_str()), out);
            let ghost head = texts(out@);
            let ghost all = texts(names@);
            let ghost f = name_probes(base@);
            let mut i: usize = 0;
            assert(all.take(0) =~= Seq::<Text>::empty());
            assert(texts(out@) =~= head + all.take(0).flat_map(f));
            while i < names.len()
                invariant
                    i <= names@.len(),
                    all == texts(names@),
                    f == name_probes(base@),
                    texts(out@) == head + all.take(i as int).flat_map(f),
                decreases names@.len() - i,
            {
                proof {
                    all.lemma_flat_map_take_append(f, i as int);
                }
                push_paths(list_submodule_candidates(base.as_str(), names[i].as_str()), out);
                assert(texts(out@) =~= head + all.take(i + 1).flat_map(f));
                i = i + 1;
            }
            assert(all.take(all.len() as int) =~= all);
            assert(head + all.flat_map(f) =~= was + (module_candidates(base@) + all.flat_map(f)));
        },
    }
}

/// Every file that is looked for when the imports of a module are resolved.
pub fn list_probes(module: &Module, root: &str, importer_dir: &str) -> (r: Vec<String>)
    ensures
        texts(r@) == module_probes(module@, root@, importer_dir@),
{
    let ghost all = import_views(module.imports@);
    let ghost f = import_probes(root@, importer_dir@);
    let mut out: Vec<String> = Vec::new();
    let mut i: usize = 0;
    assert(all.take(0) =~= Seq::<ImportView>::empty());
    assert(texts(out@) =~= all.take(0).flat_map(f));
    while i < module.imports.len()
        invariant
            i <= module.imports@.len(),
            all == import_views(module.imports@),
            f == import_probes(root@, importer_dir@),
            texts(out@) == all.take(i as int).flat_map(f),
        decreases module.imports@.len() - i,
    {
        proof {
            all.lemma_flat_map_take_append(f, i as int);
        }
        push_probes(&module.imports[i], root, importer_dir, &mut out);
        i = i + 1;
    }
    assert(all.take(all.len() as int) =~= all);
    out
}

/// What a module comes to.
pub fn link(module: &Module, root: &str, importer_dir: &str, file_rel: &str, disk: &Disk) -> (r: FileFacts)
    ensures
        r@ == module_facts(module@, disk@, root@, importer_dir@, file_rel@),
{
    let ghost all = import_views(module.imports@);
    let ghost f = import_targets(disk@, root@, importer_dir@);
    let mut found: Vec<DepRef> = Vec::new();
    let mut i: usize = 0;
    assert(all.take(0) =~= Seq::<ImportView>::empty());
    assert(targets(found@) =~= all.take(0).flat_map(f));
    while i < module.imports.len()
        invariant
            i <= module.imports@.len(),
            all == import_views(module.imports@),
            f == import_targets(disk@, root@, importer_dir@),
            targets(found@) == all.take(i as int).flat_map(f),
        decreases module.imports@.len() - i,
    {
        proof {
            all.lemma_flat_map_take_append(f, i as int);
        }
        push_targets(&module.imports[i], root, importer_dir, disk, &mut found);
        i = i + 1;
    }
    assert(all.take(all.len() as int) =~= all);
    let dependencies = whole_edges(found);
    let has_local_exports = module.names_exports;
    let has_reexports = ends_in(file_rel, "__init__.py") && module.imports_at_top;
    let facts = FileFacts {
        dependencies,
        exports: copy_texts(&module.exports),
        has_local_exports,
        has_reexports,
        name_sources: Vec::new(),
        wildcard_fallbacks: Vec::new(),
    };
    assert(facts@.name_sources =~= Seq::empty());
    assert(facts@.wildcard_fallbacks =~= Seq::empty());
    facts
}

/// What a module comes to.
pub fn analyze(
    tree: &SyntaxTree,
    src: &str,
    root: &str,
    importer_dir: &str,
    file_rel: &str,
    disk: &Disk,
) -> (r: FileFacts)
    requires
        tree.wf(),
    ensures
        r@ == module_facts(module_of(tree@, src@), disk@, root@, importer_dir@, file_rel@),
{
    let module = scan(tree, src);
    link(&module, root, importer_dir, file_rel, disk)
}

} // verus!
