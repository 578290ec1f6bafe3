//! The files that are left out on request.
use vstd::prelude::*;

use crate::path::{parent, parent_is_shorter, parent_of};
use crate::text::{texts, Text};

verus! {

/// `globset::Glob`.
#[verifier::external_type_specification]
#[verifier::external_body]
pub struct ExGlob(globset::Glob);

/// `globset::GlobSetBuilder`.
#[verifier::external_type_specification]
#[verifier::external_body]
pub struct ExGlobSetBuilder(globset::GlobSetBuilder);

/// `globset::GlobSet`.
#[verifier::external_type_specification]
#[verifier::external_body]
pub struct ExGlobSet(globset::GlobSet);

/// `globset::Error`.
#[verifier::external_type_specification]
#[verifier::external_body]
pub struct ExGlobError(globset::Error);

/// The pattern that a `globset::Glob` was made of.
pub uninterp spec fn glob_pattern(glob: globset::Glob) -> Text;

/// The patterns in a `globset::GlobSetBuilder`, in the order in which they
/// were added.
pub uninterp spec fn added_patterns(builder: globset::GlobSetBuilder) -> Seq<Text>;

/// The patterns of a `globset::GlobSet`.
pub uninterp spec fn set_patterns(set: globset::GlobSet) -> Seq<Text>;

/// What a `globset::Error` says.
pub uninterp spec fn error_text(e: globset::Error) -> Text;

/// What is wrong with a pattern, in the words of `globset::Glob::new`, where
/// slashes alone separate the parts of paths; nothing where it is a pattern.
pub uninterp spec fn pattern_error(pattern: Text) -> Option<Text>;

/// Whether a pattern matches a path as `globset::GlobSet::is_match` has it,
/// where slashes alone separate the parts of paths.
pub uninterp spec fn pattern_matches(pattern: Text, path: Text) -> bool;

/// Whether a pattern has characters, none of which stands for others.
pub open spec fn is_literal(pattern: Text) -> bool {
    &&& pattern.len() > 0
    &&& forall|i: int|
        0 <= i < pattern.len() ==> !seq!['?', '*', '[', '{', '}', '\\'].contains(#[trigger] pattern[i])
}

/// Whether all of some patterns are literals.
pub open spec fn all_literal(patterns: Seq<Text>) -> bool {
    forall|i: int| 0 <= i < patterns.len() ==> is_literal(#[trigger] patterns[i])
}

/// `globset::Glob::new`: a glob of the pattern, or what is wrong with it. Which
/// of the two depends on the pattern alone. Nothing is wrong with a literal.
#[verifier::external_body]
fn new_glob(pattern: &str) -> (r: Result<globset::Glob, globset::Error>)
    ensures
        match r {
            Ok(glob) => pattern_error(pattern@) is None && glob_pattern(glob) == pattern@,
            Err(e) => pattern_error(pattern@) == Some(error_text(e)),
        },
        is_literal(pattern@) ==> r is Ok,
{
    globset::Glob::new(pattern)
}

/// `globset::GlobSetBuilder::new`: a builder without patterns.
#[verifier::external_body]
fn new_builder() -> (r: globset::GlobSetBuilder)
    ensures
        added_patterns(r) == Seq::<Text>::empty(),
{
    globset::GlobSetBuilder::new()
}

/// `globset::GlobSetBuilder::add`: one more pattern.
#[verifier::external_body]
fn add_glob(builder: &mut globset::GlobSetBuilder, glob: globset::Glob)
    ensures
        added_patterns(*final(builder)) == added_patterns(*old(builder)).push(glob_pattern(glob)),
{
    builder.add(glob);
}

/// `globset::GlobSetBuilder::build`: a set of the patterns added so far. Where
/// all of them are literals, or there are none, no automaton is needed, and there
/// always is a set. Other patterns are refused where the automaton for them takes
/// too much memory; how much it takes differs between machines, so it is not said
/// when that is.
#[verifier::external_body]
fn build_set(builder: &globset::GlobSetBuilder) -> (r: Result<globset::GlobSet, globset::Error>)
    ensures
        r is Ok ==> set_patterns(r->Ok_0) == added_patterns(*builder),
        all_literal(added_patterns(*builder)) ==> r is Ok,
{
    builder.build()
}

/// `globset::GlobSet::is_match`: whether any of the patterns matches the path.
#[verifier::external_body]
fn is_match(set: &globset::GlobSet, path: &str) -> (r: bool)
    ensures
        r == (exists|i: int|
            0 <= i < set_patterns(*set).len() && pattern_matches(
                #[trigger] set_patterns(*set)[i],
                path@,
            )),
{
    set.is_match(path)
}

/// The `Display` text of a `globset::Error`.
#[verifier::external_body]
fn describe(e: &globset::Error) -> (r: String)
    ensures
        r@ == error_text(*e),
{
    e.to_string()
}

/// Whether any of some patterns matches a path.
pub open spec fn any_matches(patterns: Seq<Text>, path: Text) -> bool {
    exists|i: int| 0 <= i < patterns.len() && pattern_matches(#[trigger] patterns[i], path)
}

/// Why patterns were refused.
#[derive(Debug)]
pub enum ExcludeError {
    /// This is no pattern.
    Invalid { pattern: String, reason: String },
    /// The patterns make no set.
    Unbuildable { reason: String },
}

/// The view of an [`ExcludeError`].
pub enum ErrorView {
    Invalid { pattern: Text, reason: Text },
    Unbuildable { reason: Text },
}

impl View for ExcludeError {
    type V = ErrorView;

    open spec fn view(&self) -> ErrorView {
        match self {
            ExcludeError::Invalid { pattern, reason } => ErrorView::Invalid {
                pattern: pattern@,
                reason: reason@,
            },
            ExcludeError::Unbuildable { reason } => ErrorView::Unbuildable { reason: reason@ },
        }
    }
}

/// The first of some texts that is no pattern.
pub open spec fn first_invalid(patterns: Seq<Text>) -> Option<ErrorView>
    decreases patterns.len(),
{
    if patterns.len() == 0 {
        None
    } else {
        match pattern_error(patterns[0]) {
            Some(reason) => Some(ErrorView::Invalid { pattern: patterns[0], reason }),
            None => first_invalid(patterns.skip(1)),
        }
    }
}

/// A builder that holds some patterns in order, unless one of them is none.
pub fn fill_excludes(patterns: &[String]) -> (r: Result<globset::GlobSetBuilder, ExcludeError>)
    ensures
        match first_invalid(texts(patterns@)) {
            Some(e) => r is Err && r->Err_0@ == e,
            None => r is Ok && added_patterns(r->Ok_0) == texts(patterns@),
        },
        all_literal(texts(patterns@)) ==> r is Ok,
{
    let ghost all = texts(patterns@);
    let mut builder = new_builder();
    let mut i: usize = 0;
    assert(all.skip(0) =~= all);
    assert(added_patterns(builder) =~= all.take(0));
    while i < patterns.len()
        invariant
            i <= patterns@.len(),
            all == texts(patterns@),
            first_invalid(all) == first_invalid(all.skip(i as int)),
            added_patterns(builder) == all.take(i as int),
        decreases patterns@.len() - i,
    {
        assert(all.skip(i as int)[0] == patterns@[i as int]@);
        assert(all.skip(i as int).skip(1) =~= all.skip(i + 1));
        assert(all.take(i + 1) =~= all.take(i as int).push(all[i as int]));
        match new_glob(patterns[i].as_str()) {
            Ok(glob) => {
                add_glob(&mut builder, glob);
            },
            Err(e) => {
                return Err(
                    ExcludeError::Invalid { pattern: patterns[i].clone(), reason: describe(&e) },
                );
            },
        }
        i = i + 1;
    }
    assert(all.take(all.len() as int) =~= all);
    Ok(builder)
}

/// The set that was built, or why none was.
pub fn finish_excludes(built: Result<globset::GlobSet, globset::Error>) -> (r: Result<
    globset::GlobSet,
    ExcludeError,
>)
    ensures
        match built {
            Ok(set) => r == Ok::<globset::GlobSet, ExcludeError>(set),
            Err(e) => r is Err && r->Err_0@ == (ErrorView::Unbuildable { reason: error_text(e) }),
        },
{
    match built {
        Ok(set) => Ok(set),
        Err(e) => Err(ExcludeError::Unbuildable { reason: describe(&e) }),
    }
}

/// The set of some patterns, unless one of them is none. Literals, however many,
/// always make a set; it is not said when others are refused for the memory that
/// they take together. What is built from is stated by [`fill_excludes`], and
/// what becomes of the outcome by [`finish_excludes`].
pub fn build_excludes(patterns: &[String]) -> (r: Result<globset::GlobSet, ExcludeError>)
    ensures
        match first_invalid(texts(patterns@)) {
            Some(e) => r is Err && r->Err_0@ == e,
            None => match r {
                Ok(set) => set_patterns(set) == texts(patterns@),
                Err(e) => e is Unbuildable,
            },
        },
        all_literal(texts(patterns@)) ==> r is Ok,
{
    let builder = fill_excludes(patterns)?;
    finish_excludes(build_set(&builder))
}

/// Whether a file is left out: a pattern matches its path below the root, or
/// that of a directory that it lies in.
pub open spec fn excluded(patterns: Seq<Text>, rel: Text) -> bool
    decreases rel.len(),
{
    proof {
        parent_is_shorter(rel);
    }
    if rel.len() == 0 {
        false
    } else {
        any_matches(patterns, rel) || match parent(rel) {
            Some(dir) => excluded(patterns, dir),
            None => false,
        }
    }
}

/// What lies in a directory that is left out is left out.
pub proof fn excluded_with_directory(patterns: Seq<Text>, rel: Text)
    requires
        parent(rel) is Some,
        excluded(patterns, parent(rel)->0),
    ensures
        excluded(patterns, rel),
{
    parent_is_shorter(rel);
}

/// No pattern leaves nothing out.
pub proof fn nothing_excluded_without_patterns(rel: Text)
    ensures
        !excluded(Seq::empty(), rel),
    decreases rel.len(),
{
    parent_is_shorter(rel);
    if rel.len() > 0 && parent(rel) is Some {
        nothing_excluded_without_patterns(parent(rel)->0);
    }
}

/// Whether a file is left out.
pub fn is_excluded(set: &globset::GlobSet, rel: &str) -> (r: bool)
    ensures
        r == excluded(set_patterns(*set), rel@),
{
    let mut cur = rel.to_owned();
    while !cur.as_str().is_empty()
        invariant
            excluded(set_patterns(*set), rel@) == excluded(set_patterns(*set), cur@),
        decreases cur@.len(),
    {
        if is_match(set, cur.as_str()) {
            return true;
        }
        proof {
            parent_is_shorter(cur@);
        }
        match parent_of(cur.as_str()) {
            Some(dir) => {
                cur = dir;
            },
            None => {
                return false;
            },
        }
    }
    false
}

} // verus!
