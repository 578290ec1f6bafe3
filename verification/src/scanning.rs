//! What becomes of a source file: by which grammar it is read, and what its
//! imports are resolved against.
use vstd::prelude::*;

use crate::choosing::{lemma_spells, spells};
use crate::facts::{Target, Wanted};
use crate::graph::{facts_of, world_of, World};
use crate::lang::java::{java_facts, HeaderView, ImportView};
use crate::lang::java_imports::{declares_name, index_knows_the_last_declaration, java_files_depend_on_their_imports};
use crate::lang::js_pkg::PackageView;
use crate::lang::js_ts::{script_of, ScriptView};
use crate::lang::python::{module_facts, module_of, ModuleView};
use crate::lang::python_imports::modules_depend_on_their_imports;
use crate::lang::specifier::{specifier_target, Scope};
use crate::lang::ts_paths::ConfigView;
use crate::path::appended_extension;
use crate::placing::{ends_well, is_name, parent_of_entry, slashed};
use crate::scan::{grammar_of, is_scan, scan_in, ContentsView, ScanView};
use crate::syntax::{nodes_in, Grammar, Locale};
use crate::text::Text;
use crate::walk::{FileView, Lang};

verus! {

/// A file in a directory is scanned as one that lies there.
pub proof fn files_lie_in_their_directories(
    found: ScanView,
    root: Text,
    file: FileView,
    src: Text,
    dir: Text,
    name: Text,
)
    requires
        is_scan(found, root, file, src),
        file.abs_path == slashed(dir, name),
        ends_well(dir),
        is_name(name),
    ensures
        found.dir == dir,
        found.rel == file.rel_path,
{
    parent_of_entry(dir, name);
}

/// Each language has its own grammar, and TypeScript has another where the
/// extension is `tsx`, in whatever letters.
pub proof fn files_are_read_by_their_grammars(file: FileView, base: Text, ext: Text)
    requires
        file.abs_path == base + seq!['.'] + ext,
        base.len() > 0,
        base.last() != '/',
        !(base.last() == '.' && (base.len() == 1 || base[base.len() - 2] == '/')),
        ext.len() > 0,
        forall|k: int| 0 <= k < ext.len() ==> ext[k] != '/' && ext[k] != '.',
    ensures
        grammar_of(file) is Java <==> file.lang == Lang::Java,
        grammar_of(file) is Python <==> file.lang == Lang::Python,
        grammar_of(file) is JavaScript <==> file.lang == Lang::JavaScript,
        grammar_of(file) is Tsx <==> file.lang == Lang::TypeScript && spells(ext, "tsx"@),
        grammar_of(file) is TypeScript <==> file.lang == Lang::TypeScript && !spells(ext, "tsx"@),
{
    reveal_strlit("tsx");
    appended_extension(base, ext);
    lemma_spells(ext, "tsx"@);
}

/// What a file states is read off its own tree, as its language has it.
pub proof fn files_state_what_their_trees_do(found: ScanView, root: Text, file: FileView, src: Text) -> (locale: Locale)
    requires
        is_scan(found, root, file, src),
    ensures
        file.lang == Lang::Python ==> found.contents == ContentsView::Python(
            module_of(nodes_in(locale, Grammar::Python, src), src),
        ),
        file.lang == Lang::JavaScript ==> found.contents == ContentsView::Script(
            script_of(nodes_in(locale, Grammar::JavaScript, src), src),
        ),
        file.lang == Lang::TypeScript ==> exists|grammar: Grammar|
            (grammar is TypeScript || grammar is Tsx) && found.contents == ContentsView::Script(
                script_of(#[trigger] nodes_in(locale, grammar, src), src),
            ),
        file.lang == Lang::Java ==> found.contents is Java,
{
    let locale = choose|locale: Locale| found == #[trigger] scan_in(locale, root, file, src);
    if file.lang == Lang::TypeScript {
        assert(found.contents == ContentsView::Script(script_of(nodes_in(locale, grammar_of(file), src), src)));
    }
    locale
}

/// The specifiers of a script are resolved from its own directory, with the
/// packages and configs of the source tree and the files on disk.
pub proof fn scripts_are_resolved_where_they_lie(world: World, scan: ScanView, s: ScriptView, i: int)
    requires
        scan.contents == ContentsView::Script(s),
        0 <= i < s.edges.len(),
    ensures
        0 <= i < facts_of(world, scan).dependencies.len(),
        facts_of(world, scan).dependencies[i].want == s.edges[i].1,
        facts_of(world, scan).dependencies[i].target == specifier_target(
            (Scope { root: world.root, dir: scan.dir, packages: world.packages, configs: world.configs }),
            world.disk,
            s.edges[i].0,
        ),
        facts_of(world, scan).exports == s.exports,
{
}

/// The imports of a Python module are resolved from its own directory and the
/// root, with the files on disk.
pub proof fn modules_are_resolved_where_they_lie(world: World, scan: ScanView, m: ModuleView, i: int, target: Target)
    requires
        scan.contents == ContentsView::Python(m),
        0 <= i < m.imports.len(),
        crate::lang::python::import_targets(world.disk, world.root, scan.dir)(m.imports[i]).contains(target),
    ensures
        exists|k: int|
            0 <= k < facts_of(world, scan).dependencies.len() && (#[trigger] facts_of(
                world,
                scan,
            ).dependencies[k]).target == target && facts_of(world, scan).dependencies[k].want == Wanted::All,
{
    modules_depend_on_their_imports(m, world.disk, world.root, scan.dir, scan.rel, i, target);
    let all = module_facts(m, world.disk, world.root, scan.dir, scan.rel).dependencies;
    let k = choose|k: int| 0 <= k < all.len() && (#[trigger] all[k]).target == target && all[k].want == Wanted::All;
    assert(facts_of(world, scan).dependencies[k] == all[k]);
}

/// The imports of a Java file are resolved among the types and packages of the
/// source tree; it exports its own types.
pub proof fn java_files_are_resolved_among_all_types(
    world: World,
    scan: ScanView,
    header: HeaderView,
    imports: Seq<ImportView>,
    i: int,
    target: Target,
)
    requires
        scan.contents == (ContentsView::Java { header, imports }),
        0 <= i < imports.len(),
        crate::lang::java::import_targets(world.index, scan.rel)(imports[i]).contains(target),
    ensures
        exists|k: int|
            0 <= k < facts_of(world, scan).dependencies.len() && (#[trigger] facts_of(
                world,
                scan,
            ).dependencies[k]).target == target && facts_of(world, scan).dependencies[k].want == Wanted::All,
        facts_of(world, scan).exports == header.types,
{
    java_files_depend_on_their_imports(imports, header.types, scan.rel, world.index, i, target);
    let all = java_facts(imports, header.types, scan.rel, world.index).dependencies;
    let k = choose|k: int| 0 <= k < all.len() && (#[trigger] all[k]).target == target && all[k].want == Wanted::All;
    assert(facts_of(world, scan).dependencies[k] == all[k]);
}

/// The types of the source tree are those of all its files, and the rest is as it
/// was found.
pub proof fn files_are_resolved_against_what_was_found(
    root: Text,
    packages: Map<Text, PackageView>,
    configs: Seq<ConfigView>,
    disk: Map<Text, Option<Text>>,
    scans: Seq<ScanView>,
    i: int,
    name: Text,
)
    requires
        0 <= i < scans.len(),
        declares_name(scans[i], name),
        forall|j: int| i < j < scans.len() ==> !declares_name(#[trigger] scans[j], name),
    ensures
        ({
            let world = world_of(root, packages, configs, disk, scans);
            &&& world.root == root
            &&& world.packages == packages
            &&& world.configs == configs
            &&& world.disk == disk
            &&& world.index.types.contains_key(name)
            &&& world.index.types[name] == scans[i].rel
        }),
{
    index_knows_the_last_declaration(scans, name);
}

} // verus!
