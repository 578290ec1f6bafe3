//! The packages of a JavaScript workspace, by the names that their
//! `package.json` files give them.
use vstd::prelude::*;
use vstd::hash_map::StringHashMap;

use crate::disk::{first_file, Disk};
use crate::json::{json_in, lemma_table, member, optional_json, parse, text_member, Json, JsonView};
use crate::path::{file_name, file_name_of, join, joined, parent, parent_of};
use crate::text::{chars_of, join2, optional_text, same, string_of, texts, Text};
use crate::tsutil::{js_like_candidates, list_js_like_candidates};

verus! {

/// A package: where it lies, and what its manifest says of its files.
pub struct PackageInfo {
    pub root: String,
    pub main: Option<String>,
    pub exports: Option<Json>,
}

/// A package as values.
#[verifier::ext_equal]
pub struct PackageView {
    pub root: Text,
    pub main: Option<Text>,
    pub exports: Option<JsonView>,
}

impl View for PackageInfo {
    type V = PackageView;

    open spec fn view(&self) -> PackageView {
        PackageView {
            root: self.root@,
            main: optional_text(self.main),
            exports: optional_json(self.exports),
        }
    }
}

/// The packages of a workspace by name.
pub struct JsPackageIndex {
    pub by_name: StringHashMap<PackageInfo>,
}

impl View for JsPackageIndex {
    type V = Map<Text, PackageView>;

    open spec fn view(&self) -> Map<Text, PackageView> {
        self.by_name@.map_values(|p: PackageInfo| p@)
    }
}

impl Default for JsPackageIndex {
    /// The index of a workspace without packages.
    fn default() -> (r: JsPackageIndex)
        ensures
            r@ == Map::<Text, PackageView>::empty(),
    {
        let r = JsPackageIndex { by_name: StringHashMap::new() };
        assert(r@ =~= Map::<Text, PackageView>::empty());
        r
    }
}

/// A `package.json` file: where it is and what it holds.
pub struct Manifest {
    pub path: String,
    pub text: String,
}

/// Manifests as values: path and text.
pub open spec fn manifest_views(list: Seq<Manifest>) -> Seq<(Text, Text)> {
    list.map_values(|m: Manifest| (m.path@, m.text@))
}

/// Whether a path is that of a package's manifest.
pub open spec fn names_manifest(path: Text) -> bool {
    file_name(path) == Some("package.json"@)
}

/// Whether a path is that of a package's manifest.
pub fn is_manifest_file(path: &str) -> (r: bool)
    ensures
        r == names_manifest(path@),
{
    match file_name_of(path) {
        Some(name) => same(name.as_str(), "package.json"),
        None => false,
    }
}

/// The package that a manifest describes, with its name.
pub open spec fn package_of(path: Text, text: Text) -> Option<(Text, PackageView)> {
    match (json_in(text), parent(path)) {
        (Some(json), Some(root)) => match text_member(json, "name"@) {
            Some(name) if names_manifest(path) => Some(
                (
                    name,
                    PackageView {
                        root,
                        main: text_member(json, "main"@),
                        exports: member(json, "exports"@),
                    },
                ),
            ),
            _ => None,
        },
        _ => None,
    }
}

/// The packages that manifests describe. Of several with one name the last
/// counts.
pub open spec fn packages(list: Seq<(Text, Text)>) -> Map<Text, PackageView>
    decreases list.len(),
{
    if list.len() == 0 {
        Map::empty()
    } else {
        let before = packages(list.drop_last());
        match package_of(list.last().0, list.last().1) {
            Some((name, package)) => before.insert(name, package),
            None => before,
        }
    }
}

/// The package that a manifest describes, with its name.
fn read_manifest(path: &str, text: &str) -> (r: Option<(String, PackageInfo)>)
    ensures
        match r {
            Some((name, package)) => package_of(path@, text@) == Some((name@, package@)),
            None => package_of(path@, text@) is None,
        },
{
    if !is_manifest_file(path) {
        return None;
    }
    let root = match parent_of(path) {
        Some(dir) => dir,
        None => {
            return None;
        },
    };
    let json = match parse(text) {
        Some(json) => json,
        None => {
            return None;
        },
    };
    let name = match json.get_text("name") {
        Some(name) => name.clone(),
        None => {
            return None;
        },
    };
    let main = match json.get_text("main") {
        Some(main) => Some(main.clone()),
        None => None,
    };
    let exports = json.into_member("exports");
    Some((name, PackageInfo { root, main, exports }))
}

/// The packages that manifests describe.
pub fn scan_packages(manifests: &Vec<Manifest>) -> (r: JsPackageIndex)
    ensures
        r@ == packages(manifest_views(manifests@)),
{
    let ghost all = manifest_views(manifests@);
    let mut index = JsPackageIndex { by_name: StringHashMap::new() };
    let mut i: usize = 0;
    assert(index@ =~= packages(all.take(0)));
    while i < manifests.len()
        invariant
            i <= manifests@.len(),
            all == manifest_views(manifests@),
            index@ == packages(all.take(i as int)),
        decreases manifests@.len() - i,
    {
        assert(all.take(i + 1).drop_last() =~= all.take(i as int));
        assert(all.take(i + 1).last() == all[i as int]);
        let ghost was = index@;
        if let Some((name, package)) = read_manifest(
            manifests[i].path.as_str(),
            manifests[i].text.as_str(),
        ) {
            let ghost n = name@;
            let ghost p = package@;
            index.by_name.insert(name, package);
            assert(index@ =~= was.insert(n, p));
        }
        i = i + 1;
    }
    assert(all.take(all.len() as int) =~= all);
    index
}

/// The place of the first slash of `s` from `i` on, or the end.
pub open spec fn slash_from(s: Text, i: int) -> int
    decreases s.len() - i,
{
    if i >= s.len() {
        s.len() as int
    } else if s[i] == '/' {
        i
    } else {
        slash_from(s, i + 1)
    }
}

/// The place where the package name of a specifier ends: at the first slash,
/// or at the second one where the name has a scope.
pub open spec fn name_end(spec: Text) -> int {
    if spec.len() > 0 && spec[0] == '@' {
        slash_from(spec, slash_from(spec, 0) + 1)
    } else {
        slash_from(spec, 0)
    }
}

/// The package name of a specifier.
pub open spec fn package_name(spec: Text) -> Text {
    spec.take(name_end(spec))
}

/// What stands behind the package name of a specifier.
pub open spec fn subpath(spec: Text) -> Option<Text> {
    if name_end(spec) < spec.len() {
        Some(spec.skip(name_end(spec) + 1))
    } else {
        None
    }
}

proof fn lemma_slash_from(s: Text, i: int)
    requires
        0 <= i,
    ensures
        0 <= slash_from(s, i) <= s.len(),
        i <= s.len() ==> i <= slash_from(s, i),
        slash_from(s, i) < s.len() ==> s[slash_from(s, i)] == '/',
    decreases s.len() - i,
{
    if i < s.len() && s[i] != '/' {
        lemma_slash_from(s, i + 1);
    }
}

/// A specifier is its package name, and what stands behind it after a slash.
pub proof fn specifier_is_its_pieces(spec: Text)
    ensures
        spec == match subpath(spec) {
            Some(sub) => package_name(spec) + "/"@ + sub,
            None => package_name(spec),
        },
{
    reveal_strlit("/");
    lemma_slash_from(spec, 0);
    lemma_slash_from(spec, slash_from(spec, 0) + 1);
    match subpath(spec) {
        Some(sub) => {
            assert(spec =~= package_name(spec) + "/"@ + sub);
        },
        None => {
            assert(spec =~= package_name(spec));
        },
    }
}

/// The package name of a specifier, and what stands behind it.
pub fn split_specifier(spec: &str) -> (r: (String, Option<String>))
    ensures
        r.0@ == package_name(spec@),
        optional_text(r.1) == subpath(spec@),
{
    let s = chars_of(spec);
    let n = s.len();
    proof {
        lemma_slash_from(spec@, 0);
        lemma_slash_from(spec@, slash_from(spec@, 0) + 1);
    }
    let mut end = find_slash(&s, 0);
    if n > 0 && s[0] == '@' {
        if end < n {
            end = find_slash(&s, end + 1);
        }
    }
    assert(end == name_end(spec@));
    let name = string_of(&s, 0, end);
    assert(name@ =~= package_name(spec@));
    if end < n {
        let sub = string_of(&s, end + 1, n);
        assert(sub@ =~= spec@.skip(end + 1));
        (name, Some(sub))
    } else {
        (name, None)
    }
}

/// The place of the first slash from `from` on, or the end.
fn find_slash(s: &Vec<char>, from: usize) -> (r: usize)
    requires
        from <= s@.len(),
    ensures
        r == slash_from(s@, from as int),
        r <= s@.len(),
{
    let mut i: usize = from;
    while i < s.len() && s[i] != '/'
        invariant
            i <= s@.len(),
            slash_from(s@, from as int) == slash_from(s@, i as int),
        decreases s@.len() - i,
    {
        i = i + 1;
    }
    i
}

/// The conditions of an export, the one that counts most first.
pub open spec fn conditions() -> Seq<Text> {
    seq!["types"@, "import"@, "module"@, "default"@, "require"@]
}

/// The text under the first of some keys that has one.
pub open spec fn first_text(j: JsonView, keys: Seq<Text>) -> Option<Text>
    decreases keys.len(),
{
    if keys.len() == 0 {
        None
    } else {
        match text_member(j, keys[0]) {
            Some(s) => Some(s),
            None => first_text(j, keys.skip(1)),
        }
    }
}

/// What an `exports` field says under a key. A text alone stands under `.`; a
/// table of conditions stands for the first condition that has a text.
pub open spec fn exported(exports: JsonView, key: Text) -> Option<Text> {
    match exports {
        JsonView::Text(s) => if key == "."@ {
            Some(s)
        } else {
            None
        },
        JsonView::Table(_) => match member(exports, key) {
            Some(JsonView::Text(s)) => Some(s),
            Some(JsonView::Table(t)) => first_text(JsonView::Table(t), conditions()),
            _ => None,
        },
        _ => None,
    }
}

/// What an `exports` field says under a key.
pub fn exports_lookup(exports: &Json, key: &str) -> (r: Option<String>)
    ensures
        optional_text(r) == exported(exports@, key@),
{
    match exports {
        Json::Text(s) => if same(key, ".") {
            Some(s.clone())
        } else {
            None
        },
        Json::Table(_) => {
            proof {
                lemma_table(*exports);
            }
            match exports.get(key) {
                Some(Json::Text(s)) => Some(s.clone()),
                Some(options) => {
                    if let Json::Table(_) = options {
                        proof {
                            lemma_table(*options);
                        }
                        first_condition(options)
                    } else {
                        None
                    }
                },
                None => None,
            }
        },
        _ => None,
    }
}

/// The text under the first condition that has one.
fn first_condition(options: &Json) -> (r: Option<String>)
    ensures
        optional_text(r) == first_text(options@, conditions()),
{
    let keys: [&str; 5] = ["types", "import", "module", "default", "require"];
    let ghost all = conditions();
    let mut i: usize = 0;
    assert(all.skip(0) =~= all);
    while i < 5
        invariant
            i <= 5,
            all == conditions(),
            all.len() == 5,
            keys@.len() == 5,
            forall|k: int| 0 <= k < 5 ==> (#[trigger] keys@[k])@ == all[k],
            first_text(options@, all) == first_text(options@, all.skip(i as int)),
        decreases 5 - i,
    {
        assert(all.skip(i as int)[0] == all[i as int]);
        assert(all.skip(i as int).skip(1) =~= all.skip(i + 1));
        if let Some(s) = options.get_text(keys[i]) {
            return Some(s.clone());
        }
        i = i + 1;
    }
    None
}

/// `s` without any `./` that it starts with.
pub open spec fn without_here(s: Text) -> Text
    decreases s.len(),
{
    if s.len() >= 2 && s[0] == '.' && s[1] == '/' {
        without_here(s.skip(2))
    } else {
        s
    }
}

/// `s` without any `./` that it starts with.
fn trim_here(s: &str) -> (r: String)
    ensures
        r@ == without_here(s@),
{
    let chars = chars_of(s);
    let n = chars.len();
    let mut i: usize = 0;
    assert(s@.skip(0) =~= s@);
    while n - i >= 2 && chars[i] == '.' && chars[i + 1] == '/'
        invariant
            i <= n == chars@.len(),
            chars@ == s@,
            without_here(s@) == without_here(s@.skip(i as int)),
        decreases n - i,
    {
        assert(s@.skip(i as int).skip(2) =~= s@.skip(i + 2));
        i = i + 2;
    }
    let r = string_of(&chars, i, n);
    assert(r@ =~= s@.skip(i as int));
    r
}

/// The files that an `exports` field can mean by a key.
pub open spec fn export_candidates(p: PackageView, key: Text) -> Seq<Text> {
    match p.exports {
        Some(exports) => match exported(exports, key) {
            Some(path) => js_like_candidates(join(p.root, without_here(path))),
            None => Seq::empty(),
        },
        None => Seq::empty(),
    }
}

/// The files that a package can stand for: what it exports as itself, its main
/// file, its directory, or the `src` directory of one that is not built yet.
pub open spec fn entry_candidates(p: PackageView) -> Seq<Text> {
    let main = match p.main {
        Some(path) => js_like_candidates(join(p.root, path)),
        None => Seq::empty(),
    };
    export_candidates(p, "."@) + main + js_like_candidates(p.root) + js_like_candidates(
        join(p.root, "src"@),
    )
}

/// The files that a path below a package can stand for: what the package
/// exports under it, or what lies there.
pub open spec fn subpath_candidates(p: PackageView, sub: Text) -> Seq<Text> {
    export_candidates(p, "./"@ + sub) + js_like_candidates(join(p.root, sub))
}

/// The files that a bare specifier can stand for; none where no package has
/// its name.
pub open spec fn package_candidates(index: Map<Text, PackageView>, spec: Text) -> Seq<Text> {
    if index.contains_key(package_name(spec)) {
        let p = index[package_name(spec)];
        match subpath(spec) {
            None => entry_candidates(p),
            Some(sub) => subpath_candidates(p, sub),
        }
    } else {
        Seq::empty()
    }
}

/// Appends the files that an `exports` field can mean by a key.
fn push_exported(p: &PackageInfo, key: &str, out: &mut Vec<String>)
    ensures
        texts(final(out)@) == texts(old(out)@) + export_candidates(p@, key@),
{
    let ghost was = texts(out@);
    if let Some(exports) = &p.exports {
        if let Some(path) = exports_lookup(exports, key) {
            push_js_like(joined(p.root.as_str(), trim_here(path.as_str()).as_str()).as_str(), out);
            return ;
        }
    }
    assert(was + Seq::<Text>::empty() =~= was);
}

/// Appends the files that a JavaScript or TypeScript path can stand for.
fn push_js_like(path: &str, out: &mut Vec<String>)
    ensures
        texts(final(out)@) == texts(old(out)@) + js_like_candidates(path@),
{
    let ghost was = texts(out@);
    let mut more = list_js_like_candidates(path);
    let ghost added = texts(more@);
    out.append(&mut more);
    assert(texts(out@) =~= was + added);
}

/// The files that a package can stand for.
pub fn resolve_entry(p: &PackageInfo) -> (r: Vec<String>)
    ensures
        texts(r@) == entry_candidates(p@),
{
    let mut out: Vec<String> = Vec::new();
    assert(texts(out@) =~= Seq::<Text>::empty());
    push_exported(p, ".", &mut out);
    if let Some(main) = &p.main {
        push_js_like(joined(p.root.as_str(), main.as_str()).as_str(), &mut out);
    }
    push_js_like(p.root.as_str(), &mut out);
    push_js_like(joined(p.root.as_str(), "src").as_str(), &mut out);
    assert(texts(out@) =~= entry_candidates(p@));
    out
}

/// The files that a path below a package can stand for.
pub fn resolve_subpath(p: &PackageInfo, sub: &str) -> (r: Vec<String>)
    ensures
        texts(r@) == subpath_candidates(p@, sub@),
{
    let mut out: Vec<String> = Vec::new();
    assert(texts(out@) =~= Seq::<Text>::empty());
    push_exported(p, join2("./", sub).as_str(), &mut out);
    push_js_like(joined(p.root.as_str(), sub).as_str(), &mut out);
    assert(texts(out@) =~= subpath_candidates(p@, sub@));
    out
}

/// The files that a bare specifier can stand for, in the order in which they
/// are looked for.
pub fn list_package_candidates(index: &JsPackageIndex, spec: &str) -> (r: Vec<String>)
    ensures
        texts(r@) == package_candidates(index@, spec@),
{
    let (name, sub) = split_specifier(spec);
    match index.by_name.get(name.as_str()) {
        Some(p) => match sub {
            None => resolve_entry(p),
            Some(sub) => resolve_subpath(p, sub.as_str()),
        },
        None => {
            let none: Vec<String> = Vec::new();
            assert(texts(none@) =~= Seq::<Text>::empty());
            none
        },
    }
}

/// The file that a bare specifier stands for; none where no package has its
/// name, or none of the files of the one that has it exists.
pub fn resolve_bare_specifier(index: &JsPackageIndex, spec: &str, disk: &Disk) -> (r: Option<String>)
    ensures
        optional_text(r) == first_file(disk@, package_candidates(index@, spec@)),
{
    let candidates = list_package_candidates(index, spec);
    disk.find(&candidates)
}

} // verus!
