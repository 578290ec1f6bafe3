//! Which of the files below a root are source files.
use vstd::prelude::*;

use crate::excludes::{any_matches, excluded, pattern_matches};
use crate::path::{appended_extension, names};
use crate::placing::{
    is_name, names_of_strung, parent_of_strung, rest_is_what_follows, slashed, strung, strung_names_are_proper,
};
use crate::text::{replace_char, Text};
use crate::walk::{
    collected_files_are_wanted, foreign_dirs, in_skipped_dir, is_sorted_list, lang_of, path_below, skipped_dirs,
    small_letters, source_file, wanted_files_are_collected, FileView, Lang,
};

verus! {

/// Whether a text is a word in small letters, written in whatever letters.
pub open spec fn spells(s: Text, word: Text) -> bool {
    &&& s.len() == word.len()
    &&& forall|i: int|
        0 <= i < s.len() ==> s[i] == #[trigger] word[i] || ('A' <= s[i] <= 'Z' && s[i] as int + 32 == word[i] as int)
}

/// Whether a text spells an extension of a language.
pub open spec fn marks(ext: Text, lang: Lang) -> bool {
    match lang {
        Lang::Java => spells(ext, "java"@),
        Lang::Python => spells(ext, "py"@) || spells(ext, "pyi"@),
        Lang::JavaScript => spells(ext, "js"@) || spells(ext, "jsx"@) || spells(ext, "mjs"@) || spells(ext, "cjs"@),
        Lang::TypeScript => spells(ext, "ts"@) || spells(ext, "tsx"@) || spells(ext, "mts"@) || spells(ext, "cts"@),
    }
}

/// A text spells a word where its small letters are the word.
pub proof fn lemma_spells(s: Text, word: Text)
    requires
        forall|i: int| 0 <= i < word.len() ==> 'a' <= #[trigger] word[i] <= 'z',
    ensures
        small_letters(s) == word <==> spells(s, word),
{
    let t = small_letters(s);
    if spells(s, word) {
        assert forall|i: int| 0 <= i < s.len() implies t[i] == word[i] by {
            assert('a' <= word[i] <= 'z');
        }
        assert(t =~= word);
    }
    if t == word {
        assert forall|i: int| 0 <= i < s.len() implies s[i] == #[trigger] word[i] || ('A' <= s[i] <= 'Z' && s[i] as int
            + 32 == word[i] as int) by {
            assert(t[i] == word[i]);
        }
    }
}

/// The extension of a file tells its language, in whatever letters it is written;
/// a file with another extension has none.
pub proof fn extensions_tell_the_language(base: Text, ext: Text)
    requires
        base.len() > 0,
        base.last() != '/',
        !(base.last() == '.' && (base.len() == 1 || base[base.len() - 2] == '/')),
        ext.len() > 0,
        forall|k: int| 0 <= k < ext.len() ==> ext[k] != '/' && ext[k] != '.',
    ensures
        forall|lang: Lang| #[trigger] marks(ext, lang) <==> lang_of(base + seq!['.'] + ext) == Some(lang),
{
    reveal_strlit("java");
    reveal_strlit("py");
    reveal_strlit("pyi");
    reveal_strlit("js");
    reveal_strlit("jsx");
    reveal_strlit("mjs");
    reveal_strlit("cjs");
    reveal_strlit("ts");
    reveal_strlit("tsx");
    reveal_strlit("mts");
    reveal_strlit("cts");
    appended_extension(base, ext);
    let s = small_letters(ext);
    lemma_spells(ext, "java"@);
    lemma_spells(ext, "py"@);
    lemma_spells(ext, "pyi"@);
    lemma_spells(ext, "js"@);
    lemma_spells(ext, "jsx"@);
    lemma_spells(ext, "mjs"@);
    lemma_spells(ext, "cjs"@);
    lemma_spells(ext, "ts"@);
    lemma_spells(ext, "tsx"@);
    lemma_spells(ext, "mts"@);
    lemma_spells(ext, "cts"@);
    let python = seq!["py"@, "pyi"@];
    let javascript = seq!["js"@, "jsx"@, "mjs"@, "cjs"@];
    let typescript = seq!["ts"@, "mts"@, "cts"@, "tsx"@];
    assert(python[0] == "py"@ && python[1] == "pyi"@);
    assert(javascript[0] == "js"@ && javascript[1] == "jsx"@ && javascript[2] == "mjs"@ && javascript[3] == "cjs"@);
    assert(typescript[0] == "ts"@ && typescript[1] == "mts"@ && typescript[2] == "cts"@ && typescript[3] == "tsx"@);
    assert(marks(ext, Lang::Java) <==> s == "java"@);
    assert(marks(ext, Lang::Python) <==> python.contains(s));
    assert(marks(ext, Lang::JavaScript) <==> javascript.contains(s));
    assert(marks(ext, Lang::TypeScript) <==> typescript.contains(s));
    assert("java"@.len() == 4);
    assert(forall|w: Text| python.contains(w) ==> w[0] == 'p');
    assert(forall|w: Text| javascript.contains(w) ==> w.len() < 4 && w[0] != 'p' && (w[0] == 'j' || w[1] == 'j'));
    assert(forall|w: Text| typescript.contains(w) ==> w.len() < 4 && w[0] != 'p' && (w[0] == 't' || w[1] == 't'));
}

/// Whether version control, a package manager, a build tool or an editor makes
/// directories of this name.
pub open spec fn is_made_by_tools(name: Text) -> bool {
    ||| name == ".git"@
    ||| name == "node_modules"@ || name == "vendor"@
    ||| name == "dist"@ || name == "build"@ || name == "out"@ || name == "target"@
    ||| name == ".next"@ || name == ".nuxt"@
    ||| name == "__pycache__"@ || name == ".mypy_cache"@ || name == ".pytest_cache"@ || name == ".tox"@
    ||| name == ".venv"@ || name == "venv"@ || name == "env"@
    ||| name == "coverage"@
    ||| name == ".idea"@ || name == ".vscode"@ || name == ".gradle"@ || name == ".settings"@
}

proof fn lemma_skipped(name: Text)
    ensures
        skipped_dirs().contains(name) <==> is_made_by_tools(name),
{
    let s = skipped_dirs();
    assert(s[0] == ".git"@ && s[1] == "node_modules"@ && s[2] == "dist"@ && s[3] == "build"@ && s[4] == "out"@);
    assert(s[5] == "target"@ && s[6] == ".next"@ && s[7] == ".nuxt"@ && s[8] == "__pycache__"@ && s[9] == ".venv"@);
    assert(s[10] == "venv"@ && s[11] == "env"@ && s[12] == ".mypy_cache"@ && s[13] == ".pytest_cache"@);
    assert(s[14] == ".tox"@ && s[15] == "coverage"@ && s[16] == "vendor"@ && s[17] == ".idea"@);
    assert(s[18] == ".vscode"@ && s[19] == ".gradle"@ && s[20] == ".settings"@);
}

/// A file lies in a directory that is skipped where tools make one of the
/// directories on the way to it. Its own name makes no difference.
pub proof fn directories_of_tools_are_skipped(parts: Seq<Text>)
    requires
        parts.len() > 0,
        forall|i: int| 0 <= i < parts.len() ==> is_name(#[trigger] parts[i]),
    ensures
        in_skipped_dir(strung(parts, '/')) <==> exists|k: int|
            0 <= k < parts.len() - 1 && is_made_by_tools(#[trigger] parts[k]),
{
    names_of_strung(parts);
    let all = names(strung(parts, '/'));
    if in_skipped_dir(strung(parts, '/')) {
        let k = choose|k: int| 0 <= k < all.len() - 1 && skipped_dirs().contains(#[trigger] all[k]);
        lemma_skipped(parts[k]);
        assert(is_made_by_tools(parts[k]));
    }
    if exists|k: int| 0 <= k < parts.len() - 1 && is_made_by_tools(#[trigger] parts[k]) {
        let k = choose|k: int| 0 <= k < parts.len() - 1 && is_made_by_tools(#[trigger] parts[k]);
        lemma_skipped(parts[k]);
        assert(skipped_dirs().contains(all[k]));
    }
}

/// Manifests and configs are looked for everywhere but where version control and
/// package managers keep what is theirs.
pub proof fn manifests_lie_outside_packages(name: Text)
    ensures
        foreign_dirs().contains(name) <==> name == ".git"@ || name == "node_modules"@,
{
    assert(foreign_dirs()[0] == ".git"@ && foreign_dirs()[1] == "node_modules"@);
}

/// A file is left out where a pattern matches it or one of the directories on the
/// way to it, and nowhere else.
pub proof fn patterns_leave_out_what_lies_below(patterns: Seq<Text>, parts: Seq<Text>)
    requires
        parts.len() > 0,
        forall|i: int| 0 <= i < parts.len() ==> is_name(#[trigger] parts[i]),
    ensures
        excluded(patterns, strung(parts, '/')) <==> exists|p: int, k: int|
            0 <= p < patterns.len() && 0 < k <= parts.len() && pattern_matches(
                #[trigger] patterns[p],
                strung(#[trigger] parts.take(k), '/'),
            ),
    decreases parts.len(),
{
    let s = strung(parts, '/');
    let n = parts.len() as int;
    let front = parts.drop_last();
    strung_names_are_proper(parts);
    parent_of_strung(parts);
    assert(parts.take(n) =~= parts);
    assert forall|k: int| 0 <= k < n implies #[trigger] parts.take(k) == front.take(k) by {
        assert(parts.take(k) =~= front.take(k));
    }
    if n > 1 {
        assert forall|i: int| 0 <= i < front.len() implies is_name(#[trigger] front[i]) by {
            assert(front[i] == parts[i]);
        }
        patterns_leave_out_what_lies_below(patterns, front);
    } else {
        assert(strung(front, '/').len() == 0);
        assert(!excluded(patterns, strung(front, '/')));
    }
    if excluded(patterns, s) {
        if any_matches(patterns, s) {
            let p = choose|p: int| 0 <= p < patterns.len() && pattern_matches(#[trigger] patterns[p], s);
            assert(pattern_matches(patterns[p], strung(parts.take(n), '/')));
        } else {
            let (p, k) = choose|p: int, k: int|
                0 <= p < patterns.len() && 0 < k <= front.len() && pattern_matches(
                    #[trigger] patterns[p],
                    strung(#[trigger] front.take(k), '/'),
                );
            assert(parts.take(k) == front.take(k));
            assert(pattern_matches(patterns[p], strung(parts.take(k), '/')));
        }
    }
    if exists|p: int, k: int|
        0 <= p < patterns.len() && 0 < k <= n && pattern_matches(
            #[trigger] patterns[p],
            strung(#[trigger] parts.take(k), '/'),
        ) {
        let (p, k) = choose|p: int, k: int|
            0 <= p < patterns.len() && 0 < k <= n && pattern_matches(
                #[trigger] patterns[p],
                strung(#[trigger] parts.take(k), '/'),
            );
        if k == n {
            assert(any_matches(patterns, s));
        } else {
            assert(parts.take(k) == front.take(k));
            assert(excluded(patterns, strung(front, '/')));
        }
    }
}

/// Whether a file below the root belongs into the graph: its extension is that of
/// a language, tools make none of its directories, and no pattern matches it or one
/// of its directories.
pub open spec fn belongs(patterns: Seq<Text>, parts: Seq<Text>, ext: Text) -> bool {
    &&& exists|lang: Lang| marks(ext, lang)
    &&& forall|k: int| 0 <= k < parts.len() - 1 ==> !is_made_by_tools(#[trigger] parts[k])
    &&& forall|p: int, k: int|
        0 <= p < patterns.len() && 0 < k <= parts.len() ==> !pattern_matches(
            #[trigger] patterns[p],
            strung(#[trigger] parts.take(k), '/'),
        )
}

/// Of the files below the root, those are collected that belong into the graph,
/// each with its path below the root and the language of its extension.
pub proof fn files_that_belong_are_collected(
    root: Text,
    paths: Seq<Text>,
    patterns: Seq<Text>,
    files: Seq<FileView>,
    at: int,
    parts: Seq<Text>,
    stem: Text,
    ext: Text,
)
    requires
        is_sorted_list(paths.filter_map(source_file(root, patterns)), files),
        root.len() > 0,
        0 <= at < paths.len(),
        paths[at] == slashed(root, strung(parts, '/')),
        parts.len() > 0,
        forall|i: int| 0 <= i < parts.len() ==> is_name(#[trigger] parts[i]),
        forall|i: int|
            0 <= i < strung(parts, '/').len() ==> #[trigger] strung(parts, '/')[i] != '\\',
        parts.last() == stem + seq!['.'] + ext,
        is_name(stem),
        ext.len() > 0,
        forall|k: int| 0 <= k < ext.len() ==> ext[k] != '/' && ext[k] != '.',
    ensures
        belongs(patterns, parts, ext) <==> exists|i: int|
            0 <= i < files.len() && (#[trigger] files[i]).abs_path == paths[at],
        forall|i: int|
            0 <= i < files.len() && (#[trigger] files[i]).abs_path == paths[at] ==> files[i].rel_path == strung(
                parts,
                '/',
            ) && marks(ext, files[i].lang),
{
    let path = paths[at];
    let rel = strung(parts, '/');
    strung_names_are_proper(parts);
    rest_is_what_follows(root, rel);
    assert(replace_char(rel, '\\', '/') =~= rel);
    assert(path_below(root, path) == rel);
    directories_of_tools_are_skipped(parts);
    patterns_leave_out_what_lies_below(patterns, parts);
    let base = path.take(path.len() - ext.len() - 1);
    let last = parts.last();
    let before = path.take(path.len() - last.len());
    assert(rel.skip(rel.len() - last.len()) =~= last) by {
        if parts.len() == 1 {
            assert(rel =~= last);
        }
    }
    assert(before.last() == '/') by {
        if parts.len() == 1 {
            assert(rel =~= last);
        }
    }
    assert(path =~= before + last) by {
        assert forall|i: int| path.len() - last.len() <= i < path.len() implies path[i] == last[i - (path.len()
            - last.len())] by {
            let j = i - (path.len() - last.len());
            assert(rel.skip(rel.len() - last.len())[j] == rel[rel.len() - last.len() + j]);
        }
    }
    assert(base =~= before + stem);
    assert(path =~= base + seq!['.'] + ext);
    assert(base.last() == stem.last());
    if stem.len() > 1 {
        assert(base[base.len() - 2] == stem[stem.len() - 2]);
    } else if stem[0] == '.' {
        assert(stem =~= seq!['.']);
    }
    extensions_tell_the_language(base, ext);
    assert forall|i: int| 0 <= i < files.len() && (#[trigger] files[i]).abs_path == path implies files[i].rel_path
        == rel && marks(ext, files[i].lang) && belongs(patterns, parts, ext) by {
        collected_files_are_wanted(root, paths, patterns, files, i);
        assert(marks(ext, files[i].lang));
    }
    if belongs(patterns, parts, ext) {
        let lang = choose|lang: Lang| marks(ext, lang);
        assert(lang_of(path) == Some(lang));
        wanted_files_are_collected(root, paths, patterns, files, at);
        let i = choose|i: int|
            0 <= i < files.len() && files[i] == (FileView { abs_path: path, rel_path: rel, lang: lang_of(path)->0 });
        assert(files[i].abs_path == path);
    }
}

} // verus!
