//! Which files are source files, and of which language.
use vstd::prelude::*;

use crate::excludes::{excluded, is_excluded, set_patterns};
use crate::order::{is_order, sort_places};
use crate::path::{extension, extension_of, names, parts_of, strip_prefix, stripped};
use crate::syntax::numbers;
use crate::text::{one_of, replace_char, same, strs, texts, with_char_replaced, Text};

verus! {

/// A language whose files the graph holds.
#[derive(Debug, Clone, Copy, PartialEq, Eq, Structural, PartialOrd, Ord)]
pub enum Lang {
    Java,
    Python,
    JavaScript,
    TypeScript,
}

/// A capital letter of ASCII as its small letter; any other character as it is.
pub open spec fn small_letter(c: char) -> char {
    if 'A' <= c <= 'Z' {
        ((c as u8) + 32) as char
    } else {
        c
    }
}

/// `s` with the capital letters of ASCII as small letters.
pub open spec fn small_letters(s: Text) -> Text {
    s.map_values(|c: char| small_letter(c))
}

/// `s` with the capital letters of ASCII as small letters.
pub fn lowered(s: &str) -> (r: String)
    ensures
        r@ == small_letters(s@),
{
    let mut out = String::new();
    for c in it: s.chars()
        invariant
            it.seq() == s@,
            out@ =~= small_letters(s@).take(it.index() as int),
    {
        if 'A' <= c && c <= 'Z' {
            out.push((c as u8 + 32) as char);
        } else {
            out.push(c);
        }
    }
    assert(small_letters(s@).take(s@.len() as int) =~= small_letters(s@));
    out
}

/// The language that files with an extension in small letters are written in.
pub open spec fn lang_of_extension(ext: Text) -> Option<Lang> {
    if ext == "java"@ {
        Some(Lang::Java)
    } else if seq!["py"@, "pyi"@].contains(ext) {
        Some(Lang::Python)
    } else if seq!["js"@, "jsx"@, "mjs"@, "cjs"@].contains(ext) {
        Some(Lang::JavaScript)
    } else if seq!["ts"@, "mts"@, "cts"@, "tsx"@].contains(ext) {
        Some(Lang::TypeScript)
    } else {
        None
    }
}

/// The language of the file at a path, by its extension in whatever letters.
pub open spec fn lang_of(path: Text) -> Option<Lang> {
    match extension(path) {
        Some(ext) => lang_of_extension(small_letters(ext)),
        None => None,
    }
}

/// The language of the file at a path, by its extension.
pub fn detect_lang(path: &str) -> (r: Option<Lang>)
    ensures
        r == lang_of(path@),
{
    let ext = match extension_of(path) {
        Some(e) => lowered(e.as_str()),
        None => {
            return None;
        },
    };
    let python: [&str; 2] = ["py", "pyi"];
    let javascript: [&str; 4] = ["js", "jsx", "mjs", "cjs"];
    let typescript: [&str; 4] = ["ts", "mts", "cts", "tsx"];
    proof {
        assert(strs(python@) =~= seq!["py"@, "pyi"@]);
        assert(strs(javascript@) =~= seq!["js"@, "jsx"@, "mjs"@, "cjs"@]);
        assert(strs(typescript@) =~= seq!["ts"@, "mts"@, "cts"@, "tsx"@]);
    }
    if same(ext.as_str(), "java") {
        Some(Lang::Java)
    } else if one_of(&python, ext.as_str()) {
        Some(Lang::Python)
    } else if one_of(&javascript, ext.as_str()) {
        Some(Lang::JavaScript)
    } else if one_of(&typescript, ext.as_str()) {
        Some(Lang::TypeScript)
    } else {
        None
    }
}

/// The names of directories that hold no source files of their own: what
/// version control, package managers, build tools and editors make.
pub open spec fn skipped_dirs() -> Seq<Text> {
    seq![
        ".git"@,
        "node_modules"@,
        "dist"@,
        "build"@,
        "out"@,
        "target"@,
        ".next"@,
        ".nuxt"@,
        "__pycache__"@,
        ".venv"@,
        "venv"@,
        "env"@,
        ".mypy_cache"@,
        ".pytest_cache"@,
        ".tox"@,
        "coverage"@,
        "vendor"@,
        ".idea"@,
        ".vscode"@,
        ".gradle"@,
        ".settings"@,
    ]
}

/// Whether a directory of this name holds no source files of its own.
pub fn skips_dir(name: &str) -> (r: bool)
    ensures
        r == skipped_dirs().contains(name@),
{
    let list: [&str; 21] = [
        ".git",
        "node_modules",
        "dist",
        "build",
        "out",
        "target",
        ".next",
        ".nuxt",
        "__pycache__",
        ".venv",
        "venv",
        "env",
        ".mypy_cache",
        ".pytest_cache",
        ".tox",
        "coverage",
        "vendor",
        ".idea",
        ".vscode",
        ".gradle",
        ".settings",
    ];
    assert(strs(list@) =~= skipped_dirs());
    one_of(&list, name)
}

/// The names of directories that hold no manifests or configs of the source
/// tree itself.
pub open spec fn foreign_dirs() -> Seq<Text> {
    seq![".git"@, "node_modules"@]
}

/// Whether a directory of this name holds no manifests or configs of the
/// source tree itself.
pub fn skips_configs(name: &str) -> (r: bool)
    ensures
        r == foreign_dirs().contains(name@),
{
    let list: [&str; 2] = [".git", "node_modules"];
    assert(strs(list@) =~= foreign_dirs());
    one_of(&list, name)
}

/// Whether a file lies in a directory that is skipped.
pub open spec fn in_skipped_dir(rel: Text) -> bool {
    exists|k: int| 0 <= k < names(rel).len() - 1 && skipped_dirs().contains(#[trigger] names(rel)[k])
}

/// Whether a file lies in a directory that is skipped.
fn lies_in_skipped_dir(rel: &str) -> (r: bool)
    ensures
        r == in_skipped_dir(rel@),
{
    let parts = parts_of(rel);
    let ghost all = names(rel@);
    let mut k: usize = 0;
    while k < parts.len() && parts.len() - k > 1
        invariant
            k <= parts@.len(),
            all == names(rel@),
            texts(parts@) == all,
            forall|m: int| 0 <= m < k ==> !skipped_dirs().contains(#[trigger] all[m]),
        decreases parts@.len() - k,
    {
        assert(all[k as int] == parts@[k as int]@);
        if skips_dir(parts[k].as_str()) {
            return true;
        }
        k = k + 1;
    }
    false
}

/// A source file: where it is, its path below the root, and its language.
pub struct SourceFile {
    pub abs_path: String,
    pub rel_path: String,
    pub lang: Lang,
}

/// The view of a [`SourceFile`].
pub struct FileView {
    pub abs_path: Text,
    pub rel_path: Text,
    pub lang: Lang,
}

impl View for SourceFile {
    type V = FileView;

    open spec fn view(&self) -> FileView {
        FileView { abs_path: self.abs_path@, rel_path: self.rel_path@, lang: self.lang }
    }
}

/// The views of a list of source files.
pub open spec fn file_views(files: Seq<SourceFile>) -> Seq<FileView> {
    files.map_values(|f: SourceFile| f@)
}

/// The path of a file below the root; the path itself where it does not lie
/// below the root.
pub open spec fn below(root: Text, path: Text) -> Text {
    match strip_prefix(path, root) {
        Some(rest) => rest,
        None => path,
    }
}

/// The path of a file below the root.
fn find_below(root: &str, path: &str) -> (r: String)
    ensures
        r@ == below(root@, path@),
{
    match stripped(path, root) {
        Some(rest) => rest,
        None => path.to_owned(),
    }
}

/// The path of a file below the root as the graph has it, with a slash for every
/// backslash.
pub open spec fn path_below(root: Text, path: Text) -> Text {
    replace_char(below(root, path), '\\', '/')
}

/// The source file at a path: one in a known language, not in a directory that
/// is skipped, and not left out on request. A backslash separates no
/// directories.
pub open spec fn source_file(root: Text, patterns: Seq<Text>) -> spec_fn(Text) -> Option<FileView> {
    |path: Text|
        {
            let rel_path = path_below(root, path);
            match lang_of(path) {
                Some(lang) if !in_skipped_dir(below(root, path)) && !excluded(patterns, rel_path) => Some(
                    FileView { abs_path: path, rel_path, lang },
                ),
                _ => None,
            }
        }
}

/// The paths of source files below the root.
pub open spec fn rel_paths(files: Seq<FileView>) -> Seq<Text> {
    files.map_values(|f: FileView| f.rel_path)
}

/// Whether `sorted` holds the same files as `files`, by their paths below the
/// root; those with the same path keep their order.
pub open spec fn is_sorted_list(files: Seq<FileView>, sorted: Seq<FileView>) -> bool {
    exists|order: Seq<int>| #[trigger]
        is_order(rel_paths(files), order) && sorted == order.map_values(|i: int| files[i])
}

/// A source file that was collected stands at one of the paths, in a known
/// language, not in a directory that is skipped, and is not left out on request.
pub proof fn collected_files_are_wanted(
    root: Text,
    paths: Seq<Text>,
    patterns: Seq<Text>,
    files: Seq<FileView>,
    i: int,
)
    requires
        is_sorted_list(paths.filter_map(source_file(root, patterns)), files),
        0 <= i < files.len(),
    ensures
        paths.contains(files[i].abs_path),
        lang_of(files[i].abs_path) == Some(files[i].lang),
        files[i].rel_path == path_below(root, files[i].abs_path),
        !in_skipped_dir(below(root, files[i].abs_path)),
        !excluded(patterns, files[i].rel_path),
{
    let f = source_file(root, patterns);
    let found = paths.filter_map(f);
    let order = choose|order: Seq<int>| #[trigger]
        is_order(rel_paths(found), order) && files == order.map_values(|i: int| found[i]);
    assert(0 <= order[i] < found.len());
    lemma_filter_map_from(paths, f, order[i]);
}

/// Every path in a known language is collected, unless it lies in a directory
/// that is skipped or is left out on request.
pub proof fn wanted_files_are_collected(
    root: Text,
    paths: Seq<Text>,
    patterns: Seq<Text>,
    files: Seq<FileView>,
    k: int,
)
    requires
        is_sorted_list(paths.filter_map(source_file(root, patterns)), files),
        0 <= k < paths.len(),
        lang_of(paths[k]) is Some,
        !in_skipped_dir(below(root, paths[k])),
        !excluded(patterns, path_below(root, paths[k])),
    ensures
        files.contains(
            (FileView {
                abs_path: paths[k],
                rel_path: path_below(root, paths[k]),
                lang: lang_of(paths[k])->0,
            }),
        ),
{
    let f = source_file(root, patterns);
    let found = paths.filter_map(f);
    lemma_filter_map_to(paths, f, k);
    let file = f(paths[k])->0;
    let j = choose|j: int| 0 <= j < found.len() && found[j] == file;
    let order = choose|order: Seq<int>| #[trigger]
        is_order(rel_paths(found), order) && files == order.map_values(|i: int| found[i]);
    assert(order.contains(j));
    let i = choose|i: int| 0 <= i < order.len() && order[i] == j;
    assert(files[i] == file);
}

proof fn lemma_filter_map_from(paths: Seq<Text>, f: spec_fn(Text) -> Option<FileView>, j: int)
    requires
        0 <= j < paths.filter_map(f).len(),
    ensures
        exists|k: int| 0 <= k < paths.len() && f(#[trigger] paths[k]) == Some(paths.filter_map(f)[j]),
    decreases paths.len(),
{
    reveal(Seq::filter_map);
    if paths.len() > 0 {
        let front = paths.drop_last();
        paths.lemma_filter_map_take_succ(f, paths.len() - 1);
        assert(paths.take(paths.len() as int) =~= paths);
        assert(paths.take(paths.len() - 1) =~= front);
        if j < front.filter_map(f).len() {
            lemma_filter_map_from(front, f, j);
            let k = choose|k: int| 0 <= k < front.len() && f(#[trigger] front[k]) == Some(front.filter_map(f)[j]);
            assert(f(paths[k]) == Some(paths.filter_map(f)[j]));
        } else {
            assert(f(paths[paths.len() - 1]) == Some(paths.filter_map(f)[j]));
        }
    }
}

proof fn lemma_filter_map_to(paths: Seq<Text>, f: spec_fn(Text) -> Option<FileView>, k: int)
    requires
        0 <= k < paths.len(),
        f(paths[k]) is Some,
    ensures
        paths.filter_map(f).contains(f(paths[k])->0),
    decreases paths.len(),
{
    let front = paths.drop_last();
    let all = paths.filter_map(f);
    paths.lemma_filter_map_take_succ(f, paths.len() - 1);
    assert(paths.take(paths.len() as int) =~= paths);
    assert(paths.take(paths.len() - 1) =~= front);
    if k < front.len() {
        lemma_filter_map_to(front, f, k);
        let list = front.filter_map(f);
        let j = choose|j: int| 0 <= j < list.len() && list[j] == f(paths[k])->0;
        assert(all[j] == f(paths[k])->0);
    } else {
        assert(all[all.len() - 1] == f(paths[k])->0);
    }
}

/// The source files among some paths, in the order of their paths below the
/// root.
pub fn collect_source_files(root: &str, paths: &Vec<String>, excludes: &globset::GlobSet) -> (r: Vec<
    SourceFile,
>)
    ensures
        is_sorted_list(
            texts(paths@).filter_map(source_file(root@, set_patterns(*excludes))),
            file_views(r@),
        ),
{
    let ghost all = texts(paths@);
    let ghost f = source_file(root@, set_patterns(*excludes));
    let mut found: Vec<SourceFile> = Vec::new();
    let mut rels: Vec<String> = Vec::new();
    let mut i: usize = 0;
    assert(all.take(0) =~= Seq::<Text>::empty());
    assert(file_views(found@) =~= all.take(0).filter_map(f));
    assert(texts(rels@) =~= rel_paths(file_views(found@)));
    while i < paths.len()
        invariant
            i <= paths@.len(),
            all == texts(paths@),
            f == source_file(root@, set_patterns(*excludes)),
            file_views(found@) == all.take(i as int).filter_map(f),
            texts(rels@) == rel_paths(file_views(found@)),
        decreases paths@.len() - i,
    {
        let path = paths[i].as_str();
        let ghost was = file_views(found@);
        let ghost was_rels = texts(rels@);
        proof {
            all.lemma_filter_map_take_succ(f, i as int);
            assert(all[i as int] == path@);
        }
        if let Some(lang) = detect_lang(path) {
            let rest = find_below(root, path);
            let rel_path = with_char_replaced(rest.as_str(), '\\', '/');
            if !lies_in_skipped_dir(rest.as_str()) && !is_excluded(excludes, rel_path.as_str()) {
                rels.push(rel_path.clone());
                let file = SourceFile { abs_path: paths[i].clone(), rel_path, lang };
                let ghost v = file@;
                found.push(file);
                assert(file_views(found@) =~= was.push(v));
                assert(texts(rels@) =~= was_rels.push(v.rel_path));
                assert(texts(rels@) =~= rel_paths(file_views(found@)));
            }
        }
        assert(file_views(found@) =~= all.take(i + 1).filter_map(f));
        i = i + 1;
    }
    assert(all.take(all.len() as int) =~= all);
    let order = sort_places(&rels);
    let ghost files = file_views(found@);
    let ghost places = numbers(order@);
    let ghost goal = places.map_values(|i: int| files[i]);
    let mut out: Vec<SourceFile> = Vec::new();
    let mut k: usize = 0;
    while k < order.len()
        invariant
            k <= order@.len(),
            files == file_views(found@),
            places == numbers(order@),
            is_order(rel_paths(files), places),
            goal == places.map_values(|i: int| files[i]),
            file_views(out@) =~= goal.take(k as int),
        decreases order@.len() - k,
    {
        let ghost was = file_views(out@);
        assert(places[k as int] == order@[k as int]);
        let file = &found[order[k]];
        out.push(
            SourceFile {
                abs_path: file.abs_path.clone(),
                rel_path: file.rel_path.clone(),
                lang: file.lang,
            },
        );
        assert(file_views(out@) =~= was.push(goal[k as int]));
        k = k + 1;
    }
    assert(goal.take(goal.len() as int) =~= goal);
    out
}

} // verus!
