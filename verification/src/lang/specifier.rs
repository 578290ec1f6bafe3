//! From the specifier of an import in a script to the file behind it.
use vstd::prelude::*;

use crate::disk::{
    agree, agree_on, first_file, first_file_asks_candidates_only, first_file_is_candidate, local_file, relative, Disk,
};
use crate::facts::{DepRef, Target};
use crate::lang::js_pkg::{list_package_candidates, package_candidates, JsPackageIndex, PackageView};
use crate::lang::ts_paths::{alias_candidates, list_alias_candidates, ConfigView, TsPathsIndex};
use crate::path::{join, joined, starts_with_char};
use crate::text::{texts, trim_start, trimmed_start, Text};
use crate::tsutil::{is_under_node_modules, js_like_candidates, list_js_like_candidates, under_node_modules};

verus! {

/// What specifiers are resolved against: the scanned root, the directory of
/// the importing file, the packages and the configs of the source tree.
#[verifier::ext_equal]
pub struct Scope {
    pub root: Text,
    pub dir: Text,
    pub packages: Map<Text, PackageView>,
    pub configs: Seq<ConfigView>,
}

/// Whether a specifier is a path rather than a name.
pub open spec fn is_path_like(spec: Text) -> bool {
    spec.len() > 0 && (spec[0] == '.' || spec[0] == '/')
}

/// The files that a specifier can stand for. A path that starts with a slash
/// is taken from the root, one that starts with a dot from the importing file;
/// a name is looked up among the path aliases and then among the packages.
pub open spec fn specifier_candidates(scope: Scope, spec: Text) -> Seq<Text> {
    if is_path_like(spec) {
        if spec[0] == '/' {
            js_like_candidates(join(scope.root, trim_start(spec, '/')))
        } else {
            js_like_candidates(join(scope.dir, spec))
        }
    } else {
        alias_candidates(scope.configs, scope.dir, spec) + package_candidates(scope.packages, spec)
    }
}

/// What a specifier stands for, given the file found for it: that file, where
/// it lies below the root and not under `node_modules`, by its canonical path;
/// otherwise the specifier as it is.
pub open spec fn target_of(
    disk: Map<Text, Option<Text>>,
    root: Text,
    spec: Text,
    found: Option<Text>,
) -> Target {
    match found {
        Some(path) => match local_file(disk, root, path) {
            Some(rel) if !under_node_modules(disk[path]->0) => Target::Internal(rel),
            _ => Target::External(spec),
        },
        None => Target::External(spec),
    }
}

/// What a specifier stands for.
pub open spec fn specifier_target(scope: Scope, disk: Map<Text, Option<Text>>, spec: Text) -> Target {
    target_of(disk, scope.root, spec, first_file(disk, specifier_candidates(scope, spec)))
}

/// A specifier leads to a file only where one of its candidates is a file
/// whose canonical path lies below the root and not under `node_modules`.
pub proof fn internal_is_never_third_party(
    scope: Scope,
    disk: Map<Text, Option<Text>>,
    spec: Text,
)
    ensures
        match specifier_target(scope, disk, spec) {
            Target::Internal(rel) => exists|path: Text| #[trigger]
                disk.contains_key(path) && disk[path] is Some && !under_node_modules(disk[path]->0)
                    && relative(scope.root, disk[path]->0) == Some(rel) && specifier_candidates(
                    scope,
                    spec,
                ).contains(path),
            Target::External(s) => s == spec,
        },
{
    let candidates = specifier_candidates(scope, spec);
    first_file_is_candidate(disk, candidates);
    if specifier_target(scope, disk, spec) is Internal {
        let path = first_file(disk, candidates)->0;
        assert(disk.contains_key(path));
    }
}

/// What a specifier stands for depends on what is known of its candidates
/// alone.
pub proof fn target_asks_candidates_only(
    scope: Scope,
    a: Map<Text, Option<Text>>,
    b: Map<Text, Option<Text>>,
    spec: Text,
)
    requires
        agree_on(a, b, specifier_candidates(scope, spec)),
    ensures
        specifier_target(scope, a, spec) == specifier_target(scope, b, spec),
{
    let candidates = specifier_candidates(scope, spec);
    first_file_asks_candidates_only(a, b, candidates);
    first_file_is_candidate(a, candidates);
    if first_file(a, candidates) is Some {
        let path = first_file(a, candidates)->0;
        let i = choose|i: int| 0 <= i < candidates.len() && candidates[i] == path;
        assert(agree(a, b, candidates[i]));
    }
}

/// The files that a specifier can stand for, in the order in which they are
/// looked for.
pub fn list_candidates(
    root: &str,
    importer_dir: &str,
    spec: &str,
    pkg_index: &JsPackageIndex,
    ts_paths_index: &TsPathsIndex,
) -> (r: Vec<String>)
    ensures
        texts(r@) == specifier_candidates(
            (Scope {
                root: root@,
                dir: importer_dir@,
                packages: pkg_index@,
                configs: ts_paths_index@,
            }),
            spec@,
        ),
{
    if starts_with_char(spec, '/') {
        let path = joined(root, trimmed_start(spec, '/').as_str());
        list_js_like_candidates(path.as_str())
    } else if starts_with_char(spec, '.') {
        let path = joined(importer_dir, spec);
        list_js_like_candidates(path.as_str())
    } else {
        let mut out = list_alias_candidates(ts_paths_index, importer_dir, spec);
        let ghost was = texts(out@);
        let mut more = list_package_candidates(pkg_index, spec);
        let ghost added = texts(more@);
        out.append(&mut more);
        assert(texts(out@) =~= was + added);
        out
    }
}

/// What a specifier stands for.
pub fn resolve_specifier(
    root: &str,
    importer_dir: &str,
    spec: &str,
    pkg_index: &JsPackageIndex,
    ts_paths_index: &TsPathsIndex,
    disk: &Disk,
) -> (r: DepRef)
    ensures
        r@ == specifier_target(
            (Scope {
                root: root@,
                dir: importer_dir@,
                packages: pkg_index@,
                configs: ts_paths_index@,
            }),
            disk@,
            spec@,
        ),
{
    let candidates = list_candidates(root, importer_dir, spec, pkg_index, ts_paths_index);
    if let Some(path) = disk.find(&candidates) {
        if let Some(canonical) = disk.canonical(path.as_str()) {
            if !is_under_node_modules(canonical.as_str()) {
                if let Some(rel) = disk.local(root, path.as_str()) {
                    return DepRef::Internal(rel);
                }
            }
        }
    }
    DepRef::External(spec.to_owned())
}

} // verus!
