//! The path aliases of `tsconfig.json` and `jsconfig.json` files.
use vstd::prelude::*;
use vstd::string::*;
use vstd::utf8::*;

use crate::disk::{first_file, Disk};
use crate::json::{json_in, lemma_list, lemma_table, member, parse, text_member, Json, JsonView};
use crate::lang::jsonc::{strip_jsonc_comments, strip_trailing_commas, without_comments, without_trailing_commas};
use crate::path::{
    deeper_is_longer, extension, extension_of, file_name, file_name_of, is_plain, is_under, join, joined,
    lies_under, names, parent, parent_is_shorter, parent_of, starts_with_char,
};
use crate::text::{chars_of, join2, optional_text, replace_with, same, string_of, texts, with_text_replaced, Text};
use crate::tsutil::{js_like_candidates, list_js_like_candidates};

verus! {

/// A config file: where it is, and what it holds if it could be read.
pub struct ConfigSource {
    pub path: String,
    pub text: Option<String>,
}

/// A config file as values.
#[verifier::ext_equal]
pub struct SourceView {
    pub path: Text,
    pub text: Option<Text>,
}

impl View for ConfigSource {
    type V = SourceView;

    open spec fn view(&self) -> SourceView {
        SourceView { path: self.path@, text: optional_text(self.text) }
    }
}

/// Config files as values.
pub open spec fn source_views(chain: Seq<ConfigSource>) -> Seq<SourceView> {
    chain.map_values(|c: ConfigSource| c@)
}

/// What a config and those that it extends come to.
pub struct Resolved {
    pub base_dir: String,
    pub has_base_url: bool,
    pub paths: Vec<(String, Vec<String>)>,
}

/// What a config comes to, as values: each pattern with its targets.
#[verifier::ext_equal]
pub struct ResolvedView {
    pub base_dir: Text,
    pub has_base_url: bool,
    pub paths: Seq<(Text, Seq<Text>)>,
}

/// Patterns and targets as values.
pub open spec fn path_views(paths: Seq<(String, Vec<String>)>) -> Seq<(Text, Seq<Text>)> {
    paths.map_values(|p: (String, Vec<String>)| (p.0@, texts(p.1@)))
}

impl View for Resolved {
    type V = ResolvedView;

    open spec fn view(&self) -> ResolvedView {
        ResolvedView {
            base_dir: self.base_dir@,
            has_base_url: self.has_base_url,
            paths: path_views(self.paths@),
        }
    }
}

/// The directory of a config file.
pub open spec fn own_dir(path: Text) -> Text {
    match parent(path) {
        Some(dir) => dir,
        None => "."@,
    }
}

/// What a config comes to that says nothing.
pub open spec fn unset(dir: Text) -> ResolvedView {
    ResolvedView { base_dir: dir, has_base_url: false, paths: Seq::empty() }
}

/// The JSON that a config file holds.
pub open spec fn config_json(c: SourceView) -> Option<JsonView> {
    match c.text {
        Some(raw) => json_in(without_trailing_commas(without_comments(raw, false), false)),
        None => None,
    }
}

/// The texts among the items of a list.
pub open spec fn text_items(items: Seq<JsonView>) -> Seq<Text> {
    items.filter_map(
        |v: JsonView|
            match v {
                JsonView::Text(s) => Some(s),
                _ => None,
            },
    )
}

/// A pattern with its targets, where a list stands behind it.
pub open spec fn alias() -> spec_fn((Text, JsonView)) -> Option<(Text, Seq<Text>)> {
    |e: (Text, JsonView)|
        match e.1 {
            JsonView::List(items) => Some((e.0, text_items(items))),
            _ => None,
        }
}

/// What compiler options make of what a config has inherited.
pub open spec fn with_options(options: JsonView, dir: Text, inherited: ResolvedView) -> ResolvedView {
    let based = match text_member(options, "baseUrl"@) {
        Some(url) => ResolvedView { base_dir: join(dir, url), has_base_url: true, ..inherited },
        None => inherited,
    };
    match member(options, "paths"@) {
        Some(JsonView::Table(entries)) => ResolvedView { paths: entries.filter_map(alias()), ..based },
        _ => based,
    }
}

/// How many configs a config can extend, one through the other.
pub const DEEPEST: usize = 10;

/// What the config at place `k` of a chain comes to. Each config extends the
/// next one of the chain, if it says that it extends any. A config that cannot
/// be read, is no JSON, or stands too deep says nothing.
pub open spec fn resolved_from(chain: Seq<SourceView>, k: int) -> ResolvedView
    decreases chain.len() - k,
{
    let dir = own_dir(chain[k].path);
    match config_json(chain[k]) {
        Some(json) if k <= DEEPEST => {
            let inherited = if text_member(json, "extends"@) is Some && 0 <= k && k + 1 < chain.len() {
                resolved_from(chain, k + 1)
            } else {
                unset(dir)
            };
            match member(json, "compilerOptions"@) {
                Some(options) => with_options(options, dir, inherited),
                None => inherited,
            }
        },
        _ => unset(dir),
    }
}

/// The texts among the items of a list.
fn list_text_items(items: &Vec<Json>) -> (r: Vec<String>)
    ensures
        texts(r@) == text_items(Json::List(*items)@->List_0),
{
    let ghost all = Json::List(*items)@->List_0;
    let ghost f = |v: JsonView|
        match v {
            JsonView::Text(s) => Some(s),
            _ => None,
        };
    proof {
        lemma_list(Json::List(*items));
    }
    let mut out: Vec<String> = Vec::new();
    let mut i: usize = 0;
    assert(all.take(0) =~= Seq::<JsonView>::empty());
    assert(texts(out@) =~= all.take(0).filter_map(f));
    while i < items.len()
        invariant
            i <= items@.len(),
            all.len() == items@.len(),
            forall|k: int| 0 <= k < items@.len() ==> #[trigger] all[k] == items@[k]@,
            f == (|v: JsonView|
                match v {
                    JsonView::Text(s) => Some(s),
                    _ => None,
                }),
            texts(out@) == all.take(i as int).filter_map(f),
        decreases items@.len() - i,
    {
        proof {
            all.lemma_filter_map_take_succ(f, i as int);
        }
        let ghost was = texts(out@);
        if let Json::Text(s) = &items[i] {
            out.push(s.clone());
            assert(texts(out@) =~= was.push(s@));
        }
        assert(texts(out@) =~= all.take(i + 1).filter_map(f));
        i = i + 1;
    }
    assert(all.take(all.len() as int) =~= all);
    out
}

/// The patterns of a table of aliases, with their targets.
fn list_aliases(entries: &Vec<(String, Json)>) -> (r: Vec<(String, Vec<String>)>)
    ensures
        path_views(r@) == Json::Table(*entries)@->Table_0.filter_map(alias()),
{
    let ghost all = Json::Table(*entries)@->Table_0;
    let ghost f = alias();
    proof {
        lemma_table(Json::Table(*entries));
    }
    let mut out: Vec<(String, Vec<String>)> = Vec::new();
    let mut i: usize = 0;
    assert(all.take(0) =~= Seq::<(Text, JsonView)>::empty());
    assert(path_views(out@) =~= all.take(0).filter_map(f));
    while i < entries.len()
        invariant
            i <= entries@.len(),
            all.len() == entries@.len(),
            forall|k: int|
                0 <= k < entries@.len() ==> #[trigger] all[k] == (entries@[k].0@, entries@[k].1@),
            f == alias(),
            path_views(out@) == all.take(i as int).filter_map(f),
        decreases entries@.len() - i,
    {
        proof {
            all.lemma_filter_map_take_succ(f, i as int);
        }
        let ghost was = path_views(out@);
        if let Json::List(items) = &entries[i].1 {
            let targets = list_text_items(items);
            let ghost e = (entries@[i as int].0@, texts(targets@));
            proof {
                lemma_list(entries@[i as int].1);
            }
            out.push((entries[i].0.clone(), targets));
            assert(path_views(out@) =~= was.push(e));
        }
        assert(path_views(out@) =~= all.take(i + 1).filter_map(f));
        i = i + 1;
    }
    assert(all.take(all.len() as int) =~= all);
    out
}

/// The directory of a config file.
fn own_dir_of(path: &str) -> (r: String)
    ensures
        r@ == own_dir(path@),
{
    match parent_of(path) {
        Some(dir) => dir,
        None => ".".to_owned(),
    }
}

/// The JSON that a config file holds.
fn read_config(c: &ConfigSource) -> (r: Option<Json>)
    ensures
        match r {
            Some(json) => config_json(c@) == Some(json@),
            None => config_json(c@) is None,
        },
{
    match &c.text {
        Some(raw) => {
            let plain = strip_trailing_commas(strip_jsonc_comments(raw.as_str()).as_str());
            parse(plain.as_str())
        },
        None => None,
    }
}

/// What the first config of a chain comes to, each config extending the next.
pub fn load(chain: &Vec<ConfigSource>) -> (r: Resolved)
    requires
        chain@.len() > 0,
    ensures
        r@ == resolved_from(source_views(chain@), 0),
{
    load_from(chain, 0)
}

/// What the config at place `k` of a chain comes to.
fn load_from(chain: &Vec<ConfigSource>, k: usize) -> (r: Resolved)
    requires
        k < chain@.len(),
    ensures
        r@ == resolved_from(source_views(chain@), k as int),
    decreases chain@.len() - k,
{
    let ghost views = source_views(chain@);
    let dir = own_dir_of(chain[k].path.as_str());
    assert(views[k as int] == chain@[k as int]@);
    let empty: Vec<(String, Vec<String>)> = Vec::new();
    assert(path_views(empty@) =~= Seq::empty());
    let nothing = Resolved { base_dir: dir.clone(), has_base_url: false, paths: empty };
    if k > DEEPEST {
        return nothing;
    }
    let json = match read_config(&chain[k]) {
        Some(json) => json,
        None => {
            return nothing;
        },
    };
    let mut resolved = nothing;
    if json.get_text("extends").is_some() && k + 1 < chain.len() {
        resolved = load_from(chain, k + 1);
    }
    if let Some(options) = json.get("compilerOptions") {
        if let Some(url) = options.get_text("baseUrl") {
            resolved.base_dir = joined(dir.as_str(), url.as_str());
            resolved.has_base_url = true;
        }
        if let Some(Json::Table(entries)) = options.get("paths") {
            proof {
                lemma_table(Json::Table(*entries));
            }
            resolved.paths = list_aliases(entries);
        }
    }
    resolved
}

/// The files that a path in `extends` can stand for, the path itself first.
pub open spec fn with_json(path: Text) -> Seq<Text> {
    if extension(path) is None {
        seq![path, path + ".json"@]
    } else {
        seq![path]
    }
}

/// The files that a package in `extends` can stand for under one directory.
pub open spec fn package_configs(dir: Text, name: Text) -> Seq<Text> {
    let path = join(join(dir, "node_modules"@), name);
    if extension(path) is None {
        seq![path, join(path, "tsconfig.json"@), path + ".json"@]
    } else {
        seq![path, join(path, "tsconfig.json"@)]
    }
}

/// The files that a package in `extends` can stand for, under a directory and
/// the directories above it.
pub open spec fn packages_above(dir: Text, name: Text) -> Seq<Text>
    decreases dir.len(),
{
    proof {
        parent_is_shorter(dir);
    }
    match parent(dir) {
        Some(above) => package_configs(dir, name) + packages_above(above, name),
        None => package_configs(dir, name),
    }
}

/// The files that a config in `dir` can mean by what it extends.
pub open spec fn extends_candidates(dir: Text, extends: Text) -> Seq<Text> {
    if extends.len() > 0 && (extends[0] == '.' || extends[0] == '/') {
        with_json(join(dir, extends))
    } else {
        packages_above(dir, extends)
    }
}

/// The files that a config can extend; none where it extends nothing.
pub open spec fn parent_candidates(c: SourceView) -> Seq<Text> {
    match config_json(c) {
        Some(json) => match text_member(json, "extends"@) {
            Some(extends) => extends_candidates(own_dir(c.path), extends),
            None => Seq::empty(),
        },
        None => Seq::empty(),
    }
}

/// The files that the last config of a chain can extend; none where it stands
/// too deep to count.
pub open spec fn next_candidates(chain: Seq<SourceView>) -> Seq<Text> {
    if chain.len() == 0 || chain.len() > DEEPEST + 1 {
        Seq::empty()
    } else {
        parent_candidates(chain.last())
    }
}

/// The files that a config in `dir` can mean by what it extends, in the order
/// in which they are looked for.
pub fn resolve_extends(dir: &str, extends: &str) -> (r: Vec<String>)
    ensures
        texts(r@) == extends_candidates(dir@, extends@),
{
    let mut out: Vec<String> = Vec::new();
    if starts_with_char(extends, '.') || starts_with_char(extends, '/') {
        let path = joined(dir, extends);
        out.push(path.clone());
        if extension_of(path.as_str()).is_none() {
            out.push(join2(path.as_str(), ".json"));
        }
        assert(texts(out@) =~= with_json(path@));
        return out;
    }
    let mut cur = dir.to_owned();
    assert(texts(out@) + packages_above(cur@, extends@) =~= packages_above(dir@, extends@));
    loop
        invariant_except_break
            texts(out@) + packages_above(cur@, extends@) == packages_above(dir@, extends@),
        ensures
            texts(out@) == packages_above(dir@, extends@),
        decreases cur@.len(),
    {
        let ghost was = texts(out@);
        let path = joined(joined(cur.as_str(), "node_modules").as_str(), extends);
        out.push(path.clone());
        out.push(joined(path.as_str(), "tsconfig.json"));
        if extension_of(path.as_str()).is_none() {
            out.push(join2(path.as_str(), ".json"));
        }
        assert(texts(out@) =~= was + package_configs(cur@, extends@));
        proof {
            parent_is_shorter(cur@);
        }
        match parent_of(cur.as_str()) {
            Some(above) => {
                assert(was + (package_configs(cur@, extends@) + packages_above(above@, extends@)) =~= (
                was + package_configs(cur@, extends@)) + packages_above(above@, extends@));
                cur = above;
            },
            None => {
                break ;
            },
        }
    }
    out
}

/// The files that the last config of a chain can extend. The first of these
/// that exists is the next config of the chain.
pub fn next_configs(chain: &Vec<ConfigSource>) -> (r: Vec<String>)
    ensures
        texts(r@) == next_candidates(source_views(chain@)),
{
    let n = chain.len();
    let none: Vec<String> = Vec::new();
    assert(texts(none@) =~= Seq::<Text>::empty());
    if n == 0 || n > DEEPEST + 1 {
        return none;
    }
    assert(source_views(chain@).last() == chain@[n - 1]@);
    match read_config(&chain[n - 1]) {
        Some(json) => match json.get_text("extends") {
            Some(extends) => resolve_extends(
                own_dir_of(chain[n - 1].path.as_str()).as_str(),
                extends.as_str(),
            ),
            None => none,
        },
        None => none,
    }
}

/// A config that changes how specifiers are resolved, and the directory that
/// it governs.
pub struct TsConfig {
    pub dir: String,
    pub resolved: Resolved,
}

/// A governing config as values.
#[verifier::ext_equal]
pub struct ConfigView {
    pub dir: Text,
    pub resolved: ResolvedView,
}

impl View for TsConfig {
    type V = ConfigView;

    open spec fn view(&self) -> ConfigView {
        ConfigView { dir: self.dir@, resolved: self.resolved@ }
    }
}

/// The configs of a source tree.
pub struct TsPathsIndex {
    pub configs: Vec<TsConfig>,
}

impl View for TsPathsIndex {
    type V = Seq<ConfigView>;

    open spec fn view(&self) -> Seq<ConfigView> {
        self.configs@.map_values(|c: TsConfig| c@)
    }
}

impl Default for TsPathsIndex {
    /// The index of a source tree without configs.
    fn default() -> (r: TsPathsIndex)
        ensures
            r@ == Seq::<ConfigView>::empty(),
    {
        let r = TsPathsIndex { configs: Vec::new() };
        assert(r@ =~= Seq::<ConfigView>::empty());
        r
    }
}

/// Whether a path is that of a config file.
pub open spec fn names_config(path: Text) -> bool {
    file_name(path) == Some("tsconfig.json"@) || file_name(path) == Some("jsconfig.json"@)
}

/// Whether a path is that of a config file.
pub fn is_config_file(path: &str) -> (r: bool)
    ensures
        r == names_config(path@),
{
    match file_name_of(path) {
        Some(name) => same(name.as_str(), "tsconfig.json") || same(name.as_str(), "jsconfig.json"),
        None => false,
    }
}

/// The config that a chain makes: none where its first file is no config file,
/// or comes to nothing.
pub open spec fn governing() -> spec_fn(Seq<SourceView>) -> Option<ConfigView> {
    |chain: Seq<SourceView>|
        if chain.len() > 0 && names_config(chain[0].path) && parent(chain[0].path) is Some && (
        resolved_from(chain, 0).paths.len() > 0 || resolved_from(chain, 0).has_base_url) {
            Some(
                ConfigView {
                    dir: parent(chain[0].path)->0,
                    resolved: resolved_from(chain, 0),
                },
            )
        } else {
            None
        }
}

/// Chains of configs as values.
pub open spec fn chain_views(chains: Seq<Vec<ConfigSource>>) -> Seq<Seq<SourceView>> {
    chains.map_values(|c: Vec<ConfigSource>| source_views(c@))
}

/// The configs that chains make.
pub fn scan(chains: &Vec<Vec<ConfigSource>>) -> (r: TsPathsIndex)
    ensures
        r@ == chain_views(chains@).filter_map(governing()),
{
    let ghost all = chain_views(chains@);
    let ghost f = governing();
    let mut index = TsPathsIndex { configs: Vec::new() };
    let mut i: usize = 0;
    assert(all.take(0) =~= Seq::<Seq<SourceView>>::empty());
    assert(index@ =~= all.take(0).filter_map(f));
    while i < chains.len()
        invariant
            i <= chains@.len(),
            all == chain_views(chains@),
            f == governing(),
            index@ == all.take(i as int).filter_map(f),
        decreases chains@.len() - i,
    {
        proof {
            all.lemma_filter_map_take_succ(f, i as int);
        }
        let ghost was = index@;
        let chain = &chains[i];
        assert(all[i as int] == source_views(chain@));
        if chain.len() > 0 {
            assert(source_views(chain@)[0] == chain@[0]@);
            if is_config_file(chain[0].path.as_str()) {
                if let Some(dir) = parent_of(chain[0].path.as_str()) {
                    let resolved = load(chain);
                    assert(resolved@.paths.len() == resolved.paths@.len());
                    if resolved.paths.len() > 0 || resolved.has_base_url {
                        let config = TsConfig { dir, resolved };
                        let ghost c = config@;
                        index.configs.push(config);
                        assert(index@ =~= was.push(c));
                    }
                }
            }
        }
        assert(index@ =~= all.take(i + 1).filter_map(f));
        i = i + 1;
    }
    assert(all.take(all.len() as int) =~= all);
    index
}

/// The place of the first star of a pattern, or its length.
pub open spec fn star_at(pattern: Text) -> int
    decreases pattern.len(),
{
    if pattern.len() == 0 || pattern[0] == '*' {
        0
    } else {
        1 + star_at(pattern.skip(1))
    }
}

/// Whether a pattern has a star.
pub open spec fn has_star(pattern: Text) -> bool {
    star_at(pattern) < pattern.len()
}

/// Whether a pattern with a star matches a specifier: the specifier starts
/// with what stands before the star, ends with what stands behind it, and the
/// two do not overlap.
pub open spec fn star_matches(pattern: Text, spec: Text) -> bool {
    let star = star_at(pattern);
    let suffix = pattern.skip(star + 1);
    &&& spec.len() >= star + suffix.len()
    &&& spec.take(star) == pattern.take(star)
    &&& spec.skip(spec.len() - suffix.len()) == suffix
}

/// What the star of a matching pattern stands for.
pub open spec fn captured(pattern: Text, spec: Text) -> Text {
    let star = star_at(pattern);
    spec.subrange(star, spec.len() - (pattern.len() - star - 1))
}

/// The place of the pattern that a specifier matches best: an exact match wins
/// outright, otherwise the one with the most text before its star, and of
/// several such the first.
pub open spec fn best_pattern(paths: Seq<(Text, Seq<Text>)>, spec: Text) -> Option<int>
    decreases paths.len(),
{
    if paths.len() == 0 {
        None
    } else {
        let at = paths.len() - 1;
        let pattern = paths.last().0;
        let best = best_pattern(paths.drop_last(), spec);
        if !has_star(pattern) {
            if pattern == spec {
                Some(at)
            } else {
                best
            }
        } else if star_matches(pattern, spec) {
            match best {
                None => Some(at),
                Some(b) => if has_star(paths[b].0) && star_at(paths[b].0) < star_at(pattern) {
                    Some(at)
                } else {
                    best
                },
            }
        } else {
            best
        }
    }
}

/// Whether a specifier matches a pattern.
pub open spec fn fits(pattern: Text, spec: Text) -> bool {
    if has_star(pattern) {
        star_matches(pattern, spec)
    } else {
        pattern == spec
    }
}

/// The best pattern matches; there is one wherever any pattern matches; it is
/// exact wherever any exact pattern matches; and no other matching pattern has
/// more text before its star.
pub proof fn best_pattern_is_best(paths: Seq<(Text, Seq<Text>)>, spec: Text)
    ensures
        match best_pattern(paths, spec) {
            Some(b) => {
                &&& 0 <= b < paths.len()
                &&& fits(paths[b].0, spec)
                &&& forall|i: int|
                    0 <= i < paths.len() && fits((#[trigger] paths[i]).0, spec) && !has_star(paths[i].0)
                        ==> !has_star(paths[b].0)
                &&& forall|i: int|
                    0 <= i < paths.len() && fits((#[trigger] paths[i]).0, spec) && has_star(
                        paths[b].0,
                    ) ==> star_at(paths[i].0) <= star_at(paths[b].0)
            },
            None => forall|i: int| 0 <= i < paths.len() ==> !fits((#[trigger] paths[i]).0, spec),
        },
    decreases paths.len(),
{
    if paths.len() > 0 {
        let front = paths.drop_last();
        best_pattern_is_best(front, spec);
        assert forall|i: int| 0 <= i < front.len() implies #[trigger] paths[i] == front[i] by {}
        assert(paths[paths.len() - 1] == paths.last());
    }
}

/// The place of the config that governs a directory: the nearest one at or
/// above it, and of several such the last.
pub open spec fn governing_config(configs: Seq<ConfigView>, dir: Text) -> Option<int>
    decreases configs.len(),
{
    if configs.len() == 0 {
        None
    } else {
        let last = configs.last().dir;
        let best = governing_config(configs.drop_last(), dir);
        if !is_under(dir, last) {
            best
        } else {
            match best {
                Some(b) if encode_utf8(configs[b].dir).len() > encode_utf8(last).len() => best,
                _ => Some(configs.len() - 1),
            }
        }
    }
}

/// The config that governs a directory is one at or above it, and none of
/// those has a longer path.
pub proof fn governing_config_is_longest(configs: Seq<ConfigView>, dir: Text)
    ensures
        match governing_config(configs, dir) {
            Some(b) => {
                &&& 0 <= b < configs.len()
                &&& is_under(dir, configs[b].dir)
                &&& forall|i: int|
                    0 <= i < configs.len() && is_under(dir, (#[trigger] configs[i]).dir)
                        ==> encode_utf8(configs[i].dir).len() <= encode_utf8(configs[b].dir).len()
            },
            None => forall|i: int|
                0 <= i < configs.len() ==> !is_under(dir, (#[trigger] configs[i]).dir),
        },
    decreases configs.len(),
{
    if configs.len() > 0 {
        let front = configs.drop_last();
        governing_config_is_longest(front, dir);
        assert forall|i: int| 0 <= i < front.len() implies #[trigger] configs[i] == front[i] by {}
        assert(configs[configs.len() - 1] == configs.last());
    }
}

/// Where the directories of configs are written plainly, the one that governs
/// a directory is the nearest at or above it: none of the others has more
/// parts.
pub proof fn nearest_config_governs(configs: Seq<ConfigView>, dir: Text, i: int)
    requires
        forall|k: int| 0 <= k < configs.len() ==> is_plain((#[trigger] configs[k]).dir),
        0 <= i < configs.len(),
        is_under(dir, configs[i].dir),
    ensures
        governing_config(configs, dir) is Some,
        names(configs[i].dir).len() <= names(configs[governing_config(configs, dir)->0].dir).len(),
{
    governing_config_is_longest(configs, dir);
    let b = governing_config(configs, dir)->0;
    if names(configs[i].dir).len() > names(configs[b].dir).len() {
        deeper_is_longer(dir, configs[b].dir, configs[i].dir);
    }
}

/// The files that the target of a pattern can stand for, its star replaced by
/// what was captured.
pub open spec fn target_candidates(base: Text, capture: Text) -> spec_fn(Text) -> Seq<Text> {
    |target: Text| js_like_candidates(join(base, replace_with(target, '*', capture)))
}

/// The files that a specifier can stand for by what a config comes to.
pub open spec fn config_candidates(c: ResolvedView, spec: Text) -> Seq<Text> {
    match best_pattern(c.paths, spec) {
        Some(b) => {
            let (pattern, targets) = c.paths[b];
            let capture = if has_star(pattern) {
                captured(pattern, spec)
            } else {
                Seq::empty()
            };
            targets.flat_map(target_candidates(c.base_dir, capture))
        },
        None => if c.has_base_url {
            js_like_candidates(join(c.base_dir, spec))
        } else {
            Seq::empty()
        },
    }
}

/// The files that a specifier in a file of `dir` can stand for, by the config
/// that governs the directory.
pub open spec fn alias_candidates(configs: Seq<ConfigView>, dir: Text, spec: Text) -> Seq<Text> {
    match governing_config(configs, dir) {
        Some(b) => config_candidates(configs[b].resolved, spec),
        None => Seq::empty(),
    }
}

/// What a pattern makes of a specifier: whether it is exact, the length of the
/// text before its star, and what the star stands for.
fn match_pattern(pattern: &str, spec: &str) -> (r: Option<(bool, usize, String)>)
    ensures
        match r {
            Some((exact, len, capture)) => {
                &&& fits(pattern@, spec@)
                &&& exact == !has_star(pattern@)
                &&& has_star(pattern@) ==> len == star_at(pattern@)
                &&& capture@ == if has_star(pattern@) {
                    captured(pattern@, spec@)
                } else {
                    Seq::empty()
                }
            },
            None => !fits(pattern@, spec@),
        },
{
    let p = chars_of(pattern);
    let mut star: usize = 0;
    assert(p@.skip(0) =~= p@);
    while star < p.len() && p[star] != '*'
        invariant
            star <= p@.len(),
            star_at(p@) == star + star_at(p@.skip(star as int)),
        decreases p@.len() - star,
    {
        assert(p@.skip(star as int).skip(1) =~= p@.skip(star + 1));
        star = star + 1;
    }
    assert(star_at(p@) == star);
    if star == p.len() {
        if same(pattern, spec) {
            return Some((true, star, String::new()));
        }
        return None;
    }
    let s = chars_of(spec);
    let n = p.len();
    let m = s.len();
    let tail: usize = n - star - 1;
    let ghost suffix = p@.skip(star + 1);
    if m < star || m - star < tail {
        return None;
    }
    let mut i: usize = 0;
    while i < star
        invariant
            i <= star < p@.len(),
            star <= s@.len(),
            p@ == pattern@,
            s@ == spec@,
            star == star_at(pattern@),
            has_star(pattern@),
            forall|k: int| 0 <= k < i ==> p@[k] == s@[k],
        decreases star - i,
    {
        if p[i] != s[i] {
            assert(spec@.take(star as int)[i as int] != pattern@.take(star as int)[i as int]);
            return None;
        }
        i = i + 1;
    }
    assert(spec@.take(star as int) =~= pattern@.take(star as int));
    let from: usize = m - tail;
    i = 0;
    while i < tail
        invariant
            i <= tail,
            star < p@.len() == n,
            s@.len() == m,
            tail <= m,
            tail == p@.len() - star - 1,
            suffix == p@.skip(star + 1),
            from == s@.len() - tail,
            p@ == pattern@,
            s@ == spec@,
            star == star_at(pattern@),
            has_star(pattern@),
            forall|k: int| 0 <= k < i ==> suffix[k] == s@[from + k],
        decreases tail - i,
    {
        if p[star + 1 + i] != s[from + i] {
            assert(suffix[i as int] == p@[star + 1 + i]);
            assert(spec@.skip(from as int)[i as int] == s@[from + i]);
            return None;
        }
        assert(suffix[i as int] == p@[star + 1 + i]);
        i = i + 1;
    }
    assert(spec@.skip(from as int) =~= suffix);
    Some((false, star, string_of(&s, star, from)))
}

/// The targets of the pattern that a specifier matches best, and what its star
/// stands for.
pub fn best_match<'a>(paths: &'a Vec<(String, Vec<String>)>, spec: &str) -> (r: Option<
    (&'a Vec<String>, String),
>)
    ensures
        match best_pattern(path_views(paths@), spec@) {
            Some(b) => {
                let (pattern, targets) = path_views(paths@)[b];
                &&& r is Some
                &&& texts((r->0).0@) == targets
                &&& (r->0).1@ == if has_star(pattern) {
                    captured(pattern, spec@)
                } else {
                    Seq::empty()
                }
            },
            None => r is None,
        },
{
    let ghost all = path_views(paths@);
    let mut best: Option<(bool, usize, usize, String)> = None;
    let mut i: usize = 0;
    while i < paths.len()
        invariant
            i <= paths@.len(),
            all == path_views(paths@),
            match best_pattern(all.take(i as int), spec@) {
                Some(b) => {
                    &&& 0 <= b < i
                    &&& best is Some
                    &&& (best->0).0 == !has_star(all[b].0)
                    &&& has_star(all[b].0) ==> (best->0).1 == star_at(all[b].0)
                    &&& (best->0).2 == b
                    &&& (best->0).3@ == if has_star(all[b].0) {
                        captured(all[b].0, spec@)
                    } else {
                        Seq::empty()
                    }
                },
                None => best is None,
            },
        decreases paths@.len() - i,
    {
        assert(all.take(i + 1).drop_last() =~= all.take(i as int));
        assert(all.take(i + 1).last() == all[i as int]);
        assert(all[i as int].0 == paths@[i as int].0@);
        let ghost before = best_pattern(all.take(i as int), spec@);
        assert(before is Some ==> all.take(i + 1)[before->0] == all[before->0]);
        if let Some((exact, len, capture)) = match_pattern(paths[i].0.as_str(), spec) {
            let better = if exact {
                true
            } else {
                match &best {
                    Some((was_exact, was_len, _, _)) => !*was_exact && *was_len < len,
                    None => true,
                }
            };
            if better {
                best = Some((exact, len, i, capture));
            }
        }
        i = i + 1;
    }
    assert(all.take(all.len() as int) =~= all);
    match best {
        Some((_, _, b, capture)) => Some((&paths[b].1, capture)),
        None => None,
    }
}

/// The place of the config that governs a directory.
fn find_governing(index: &TsPathsIndex, dir: &str) -> (r: Option<usize>)
    ensures
        match r {
            Some(b) => governing_config(index@, dir@) == Some(b as int) && b < index@.len(),
            None => governing_config(index@, dir@) is None,
        },
{
    let ghost all = index@;
    let mut best: Option<usize> = None;
    let mut i: usize = 0;
    while i < index.configs.len()
        invariant
            i <= index.configs@.len(),
            all == index@,
            match best {
                Some(b) => governing_config(all.take(i as int), dir@) == Some(b as int) && b < i,
                None => governing_config(all.take(i as int), dir@) is None,
            },
        decreases index.configs@.len() - i,
    {
        assert(all.take(i + 1).drop_last() =~= all.take(i as int));
        assert(all.take(i + 1).last() == all[i as int]);
        assert(all[i as int].dir == index.configs@[i as int].dir@);
        if lies_under(dir, index.configs[i].dir.as_str()) {
            let keep = match best {
                Some(b) => {
                    assert(all.take(i + 1)[b as int].dir == index.configs@[b as int].dir@);
                    index.configs[b].dir.as_str().as_bytes().len()
                        > index.configs[i].dir.as_str().as_bytes().len()
                },
                None => false,
            };
            if !keep {
                best = Some(i);
            }
        }
        i = i + 1;
    }
    assert(all.take(all.len() as int) =~= all);
    best
}

/// The files that a specifier can stand for by what a config comes to.
fn list_config_candidates(c: &Resolved, spec: &str) -> (r: Vec<String>)
    ensures
        texts(r@) == config_candidates(c@, spec@),
{
    let mut out: Vec<String> = Vec::new();
    match best_match(&c.paths, spec) {
        Some((targets, capture)) => {
            let ghost all = texts(targets@);
            let ghost f = target_candidates(c@.base_dir, capture@);
            let mut i: usize = 0;
            assert(all.take(0) =~= Seq::<Text>::empty());
            assert(texts(out@) =~= all.take(0).flat_map(f));
            while i < targets.len()
                invariant
                    i <= targets@.len(),
                    all == texts(targets@),
                    f == target_candidates(c@.base_dir, capture@),
                    texts(out@) == all.take(i as int).flat_map(f),
                decreases targets@.len() - i,
            {
                proof {
                    all.lemma_flat_map_take_append(f, i as int);
                }
                let ghost was = texts(out@);
                let target = with_text_replaced(targets[i].as_str(), '*', capture.as_str());
                let mut more = list_js_like_candidates(
                    joined(c.base_dir.as_str(), target.as_str()).as_str(),
                );
                let ghost added = texts(more@);
                out.append(&mut more);
                assert(texts(out@) =~= was + added);
                i = i + 1;
            }
            assert(all.take(all.len() as int) =~= all);
            out
        },
        None => if c.has_base_url {
            list_js_like_candidates(joined(c.base_dir.as_str(), spec).as_str())
        } else {
            assert(texts(out@) =~= Seq::<Text>::empty());
            out
        },
    }
}

/// The files that a specifier in a file of `importer_dir` can stand for, in
/// the order in which they are looked for.
pub fn list_alias_candidates(index: &TsPathsIndex, importer_dir: &str, spec: &str) -> (r: Vec<String>)
    ensures
        texts(r@) == alias_candidates(index@, importer_dir@, spec@),
{
    match find_governing(index, importer_dir) {
        Some(b) => list_config_candidates(&index.configs[b].resolved, spec),
        None => {
            let none: Vec<String> = Vec::new();
            assert(texts(none@) =~= Seq::<Text>::empty());
            none
        },
    }
}

/// The file that a specifier in a file of `importer_dir` stands for.
pub fn resolve(index: &TsPathsIndex, importer_dir: &str, spec: &str, disk: &Disk) -> (r: Option<String>)
    ensures
        optional_text(r) == first_file(disk@, alias_candidates(index@, importer_dir@, spec@)),
{
    let candidates = list_alias_candidates(index, importer_dir, spec);
    disk.find(&candidates)
}

} // verus!
