//! What one source file states, before any of it is resolved.
use vstd::prelude::*;
use vstd::utf8::encode_utf8;

use crate::hash::{content_hash, hash_of};
use crate::lang::java::{
    header_of, import_views, imports_of, scan_header, scan_imports, FileHeader, HeaderView, ImportView, RawImport,
};
use crate::lang::js_pkg::JsPackageIndex;
use crate::lang::js_ts::{script_of, Script, ScriptView};
use crate::lang::python::{module_of, module_probes, Module, ModuleView};
use crate::lang::specifier::Scope;
use crate::lang::ts_paths::TsPathsIndex;
use crate::path::{extension, extension_of, parent, parent_of};
use crate::syntax::{
    locales_agree, nodes_follow_locale, nodes_in, parse, Grammar, GrammarError, Locale, NodeView, SyntaxTree,
};
use crate::text::{same, texts, Text};
use crate::walk::{lowered, small_letters, FileView, Lang, SourceFile};

verus! {

/// What a source file states, by language.
pub enum Contents {
    Java { header: FileHeader, imports: Vec<RawImport> },
    Python(Module),
    Script(Script),
}

/// The view of [`Contents`].
pub enum ContentsView {
    Java { header: HeaderView, imports: Seq<ImportView> },
    Python(ModuleView),
    Script(ScriptView),
}

impl View for Contents {
    type V = ContentsView;

    open spec fn view(&self) -> ContentsView {
        match self {
            Contents::Java { header, imports } => ContentsView::Java {
                header: header@,
                imports: import_views(imports@),
            },
            Contents::Python(m) => ContentsView::Python(m@),
            Contents::Script(s) => ContentsView::Script(s@),
        }
    }
}

/// A source file that was read: its path below the root, its directory, the
/// hash of its text, and what it states.
pub struct FileScan {
    pub rel: String,
    pub dir: String,
    pub hash: String,
    pub contents: Contents,
}

/// The view of a [`FileScan`].
pub struct ScanView {
    pub rel: Text,
    pub dir: Text,
    pub hash: Text,
    pub contents: ContentsView,
}

impl View for FileScan {
    type V = ScanView;

    open spec fn view(&self) -> ScanView {
        ScanView { rel: self.rel@, dir: self.dir@, hash: self.hash@, contents: self.contents@ }
    }
}

/// The views of a list of scans.
pub open spec fn scan_views(list: Seq<FileScan>) -> Seq<ScanView> {
    list.map_values(|s: FileScan| s@)
}

/// The grammar of a source file. TypeScript with markup has one of its own.
pub open spec fn grammar_of(file: FileView) -> Grammar {
    match file.lang {
        Lang::Java => Grammar::Java,
        Lang::Python => Grammar::Python,
        Lang::JavaScript => Grammar::JavaScript,
        Lang::TypeScript => match extension(file.abs_path) {
            Some(ext) if small_letters(ext) == "tsx"@ => Grammar::Tsx,
            _ => Grammar::TypeScript,
        },
    }
}

/// What the nodes of a source file state.
pub open spec fn contents_of(lang: Lang, t: Seq<NodeView>, src: Text) -> ContentsView {
    match lang {
        Lang::Java => ContentsView::Java { header: header_of(t, src), imports: imports_of(t, src) },
        Lang::Python => ContentsView::Python(module_of(t, src)),
        _ => ContentsView::Script(script_of(t, src)),
    }
}

/// The directory that a source file lies in.
pub open spec fn dir_of(root: Text, path: Text) -> Text {
    match parent(path) {
        Some(dir) => dir,
        None => root,
    }
}

/// The scan of a source file with this hash, by its nodes.
pub open spec fn scan_of(root: Text, file: FileView, hash: Text, t: Seq<NodeView>, src: Text) -> ScanView {
    ScanView {
        rel: file.rel_path,
        dir: dir_of(root, file.abs_path),
        hash,
        contents: contents_of(file.lang, t, src),
    }
}

/// The grammar of a source file.
pub fn choose_grammar(file: &SourceFile) -> (r: Grammar)
    ensures
        r == grammar_of(file@),
{
    match file.lang {
        Lang::Java => Grammar::Java,
        Lang::Python => Grammar::Python,
        Lang::JavaScript => Grammar::JavaScript,
        Lang::TypeScript => match extension_of(file.abs_path.as_str()) {
            Some(ext) => if same(lowered(ext.as_str()).as_str(), "tsx") {
                Grammar::Tsx
            } else {
                Grammar::TypeScript
            },
            None => Grammar::TypeScript,
        },
    }
}

/// What a source file with this hash states, by its syntax tree.
pub fn scan_tree(root: &str, file: &SourceFile, hash: String, tree: &SyntaxTree, src: &str) -> (r: FileScan)
    requires
        tree.wf(),
    ensures
        r@ == scan_of(root@, file@, hash@, tree@, src@),
{
    let dir = match parent_of(file.abs_path.as_str()) {
        Some(dir) => dir,
        None => root.to_owned(),
    };
    let contents = match file.lang {
        Lang::Java => Contents::Java {
            header: scan_header(tree, src),
            imports: scan_imports(tree, src),
        },
        Lang::Python => Contents::Python(crate::lang::python::scan(tree, src)),
        _ => Contents::Script(crate::lang::js_ts::scan(tree, src)),
    };
    FileScan { rel: file.rel_path.clone(), dir, hash, contents }
}

/// The scan of a source file with this text in a locale: what its nodes state,
/// with the hash of the text.
pub open spec fn scan_in(locale: Locale, root: Text, file: FileView, src: Text) -> ScanView {
    scan_of(root, file, hash_of(encode_utf8(src)), nodes_in(locale, grammar_of(file), src), src)
}

/// Whether `found` is the scan of a source file with this text, in whatever
/// locale.
pub open spec fn is_scan(found: ScanView, root: Text, file: FileView, src: Text) -> bool {
    exists|locale: Locale| found == #[trigger] scan_in(locale, root, file, src)
}

/// What a source file with this text states, with a hash of the text. Every
/// text has a scan.
pub fn scan_file(root: &str, file: &SourceFile, src: &str) -> (r: Result<Option<FileScan>, GrammarError>)
    ensures
        r is Ok,
        r->Ok_0 is Some,
        is_scan(r->Ok_0->0@, root@, file@, src@),
        r->Ok_0->0.hash@ == hash_of(encode_utf8(src@)),
{
    match parse(choose_grammar(file), src) {
        Ok(Some(tree)) => {
            let hash = content_hash(src.as_bytes());
            let scan = scan_tree(root, file, hash, &tree, src);
            proof {
                let locale = choose|locale: Locale|
                    tree@ == #[trigger] nodes_in(locale, grammar_of(file@), src@);
                assert(scan@ == scan_in(locale, root@, file@, src@));
            }
            Ok(Some(scan))
        },
        Ok(None) => Ok(None),
        Err(e) => Err(e),
    }
}

/// The same file with the same text under the same root gives the same scan in
/// locales that agree on the text.
pub proof fn same_text_same_scan(a: Locale, b: Locale, root: Text, file: FileView, src: Text)
    requires
        locales_agree(a, b, grammar_of(file), src),
    ensures
        scan_in(a, root, file, src) == scan_in(b, root, file, src),
{
    nodes_follow_locale(a, b, grammar_of(file), src);
}

/// A scan has the path of its file, its directory and the hash of its text,
/// whatever the locale.
pub proof fn scan_knows_its_file(found: ScanView, root: Text, file: FileView, src: Text)
    requires
        is_scan(found, root, file, src),
    ensures
        found.rel == file.rel_path,
        found.dir == dir_of(root, file.abs_path),
        found.hash == hash_of(encode_utf8(src)),
{
}

/// Every file that is looked for when what a source file states is resolved.
pub open spec fn scan_probes(scan: ScanView, scope: Scope) -> Seq<Text> {
    match scan.contents {
        ContentsView::Java { .. } => Seq::empty(),
        ContentsView::Python(m) => module_probes(m, scope.root, scope.dir),
        ContentsView::Script(s) => crate::lang::js_ts::probes(s, scope),
    }
}

/// Every file that is looked for when what a source file states is resolved.
pub fn list_probes(
    scan: &FileScan,
    root: &str,
    pkg_index: &JsPackageIndex,
    ts_paths_index: &TsPathsIndex,
) -> (r: Vec<String>)
    ensures
        texts(r@) == scan_probes(
            scan@,
            (Scope {
                root: root@,
                dir: scan.dir@,
                packages: pkg_index@,
                configs: ts_paths_index@,
            }),
        ),
{
    match &scan.contents {
        Contents::Java { .. } => {
            let none: Vec<String> = Vec::new();
            assert(texts(none@) =~= Seq::<Text>::empty());
            none
        },
        Contents::Python(m) => crate::lang::python::list_probes(m, root, scan.dir.as_str()),
        Contents::Script(s) => crate::lang::js_ts::list_probes(
            s,
            root,
            scan.dir.as_str(),
            pkg_index,
            ts_paths_index,
        ),
    }
}

} // verus!
