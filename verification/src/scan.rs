//! What a folder scan keeps: ignore patterns (glob sets), relative paths with
//! `/` separators, and the entries built from what the file system reports.
use vstd::prelude::*;
use crate::text::{chars_of, string_of, trim, trimmed};
use crate::tree::Entry;
use crate::config::{Settings, SyncPair};
use crate::digest::{blake3_of, content_digest};

verus! {

/// `globset::Glob`, a parsed glob pattern.
#[verifier::external_type_specification]
#[verifier::external_body]
pub struct ExGlob(globset::Glob);

/// `globset::GlobSet`, a set of patterns matched at once.
#[verifier::external_type_specification]
#[verifier::external_body]
pub struct ExGlobSet(globset::GlobSet);

/// `globset::GlobSetBuilder`, which collects patterns for a set.
#[verifier::external_type_specification]
#[verifier::external_body]
pub struct ExGlobSetBuilder(globset::GlobSetBuilder);

/// Whether `Glob::new` accepts a pattern.
pub uninterp spec fn glob_accepts(pattern: Seq<char>) -> bool;

/// Whether the matcher of an accepted pattern matches a path.
pub uninterp spec fn glob_matches(pattern: Seq<char>, path: Seq<char>) -> bool;

/// The patterns added to a builder, in order.
pub uninterp spec fn builder_patterns(b: globset::GlobSetBuilder) -> Seq<Seq<char>>;

/// The patterns of a glob set, in order.
pub uninterp spec fn set_patterns(s: globset::GlobSet) -> Seq<Seq<char>>;

/// `GlobSetBuilder::new`: a builder holding no pattern.
#[verifier::external_body]
fn new_builder() -> (r: globset::GlobSetBuilder)
    ensures
        builder_patterns(r) == Seq::<Seq<char>>::empty(),
{
    globset::GlobSetBuilder::new()
}

/// `Glob::new` then `GlobSetBuilder::add`: the pattern is added when it
/// parses, and the result says whether it did.
#[verifier::external_body]
fn add_pattern(b: &mut globset::GlobSetBuilder, p: &str) -> (r: bool)
    ensures
        r == glob_accepts(p@),
        builder_patterns(*final(b)) == if r {
            builder_patterns(*old(b)).push(p@)
        } else {
            builder_patterns(*old(b))
        },
{
    match globset::Glob::new(p) {
        Ok(g) => {
            b.add(g);
            true
        },
        Err(_) => false,
    }
}

/// Whether `GlobSetBuilder::build` compiles a list of patterns (it compiles
/// them into matchers, which may exceed its size limits); this depends on the
/// patterns alone.
pub uninterp spec fn globs_compile(patterns: Seq<Seq<char>>) -> bool;

/// `GlobSetBuilder::build`: the set of the builder's patterns, or `None` when
/// compiling them fails (`globs_compile`).
#[verifier::external_body]
fn build_set(b: &globset::GlobSetBuilder) -> (r: Option<globset::GlobSet>)
    ensures
        (r is Some) == globs_compile(builder_patterns(*b)),
        r is Some ==> set_patterns(r.unwrap()) == builder_patterns(*b),
{
    b.build().ok()
}

/// `GlobSet::empty`: a set that matches nothing.
#[verifier::external_body]
fn empty_set() -> (r: globset::GlobSet)
    ensures
        set_patterns(r) == Seq::<Seq<char>>::empty(),
{
    globset::GlobSet::empty()
}

/// `GlobSet::is_match`: whether any pattern of the set matches the path.
#[verifier::external_body]
fn set_matches(set: &globset::GlobSet, path: &str) -> (r: bool)
    ensures
        r == (exists|i: int| 0 <= i < set_patterns(*set).len() && #[trigger] glob_matches(set_patterns(*set)[i], path@)),
{
    set.is_match(path)
}

/// The patterns of a list that a glob set keeps: trimmed, non-blank and
/// accepted by `Glob::new`, in order.
pub open spec fn usable_patterns(patterns: Seq<Seq<char>>) -> Seq<Seq<char>>
    decreases patterns.len(),
{
    if patterns.len() == 0 {
        seq![]
    } else {
        let t = trimmed(patterns.last());
        let prev = usable_patterns(patterns.drop_last());
        if t.len() > 0 && glob_accepts(t) {
            prev.push(t)
        } else {
            prev
        }
    }
}

/// The views of a list of strings.
pub open spec fn string_views(v: Seq<String>) -> Seq<Seq<char>> {
    v.map_values(|s: String| s@)
}

/// Views of a list after a push.
pub proof fn lemma_views_push(v: Seq<String>, x: String)
    ensures
        string_views(v.push(x)) == string_views(v).push(x@),
{
    assert(string_views(v.push(x)) =~= string_views(v).push(x@));
}

/// The glob set of a list of patterns: blank patterns and patterns that do
/// not parse are skipped; when the set cannot be compiled, the empty set.
pub fn build_globset(patterns: &Vec<String>) -> (r: globset::GlobSet)
    ensures
        globs_compile(usable_patterns(string_views(patterns@))) ==> set_patterns(r) == usable_patterns(
            string_views(patterns@),
        ),
        !globs_compile(usable_patterns(string_views(patterns@))) ==> set_patterns(r).len() == 0,
{
    let mut b = new_builder();
    let n = patterns.len();
    for i in 0..n
        invariant
            n == patterns@.len(),
            builder_patterns(b) == usable_patterns(string_views(patterns@.take(i as int))),
    {
        let t = trim(patterns[i].as_str());
        proof {
            let s1 = string_views(patterns@.take(i + 1));
            assert(s1.drop_last() =~= string_views(patterns@.take(i as int)));
            assert(s1.last() == patterns@[i as int]@);
        }
        if !t.as_str().is_empty() {
            add_pattern(&mut b, t.as_str());
        }
    }
    assert(patterns@.take(n as int) =~= patterns@);
    match build_set(&b) {
        Some(s) => s,
        None => empty_set(),
    }
}

/// Whether a relative path is excluded by an ignore set: some pattern of the
/// set matches it.
pub fn is_ignored(ignore: &globset::GlobSet, rel: &str) -> (r: bool)
    ensures
        r == exists|i: int|
            0 <= i < set_patterns(*ignore).len() && #[trigger] glob_matches(set_patterns(*ignore)[i], rel@),
{
    set_matches(ignore, rel)
}

/// The ignore patterns of a pair: the global ones, then the pair's own.
pub fn pair_ignore_patterns(pair: &SyncPair, settings: &Settings) -> (r: Vec<String>)
    ensures
        string_views(r@) == string_views(settings.ignore_patterns@) + string_views(pair.ignore_patterns@),
{
    let mut r: Vec<String> = Vec::new();
    let a = settings.ignore_patterns.len();
    for i in 0..a
        invariant
            a == settings.ignore_patterns@.len(),
            string_views(r@) == string_views(settings.ignore_patterns@.take(i as int)),
    {
        let ghost before = r@;
        let c = settings.ignore_patterns[i].clone();
        r.push(c);
        proof {
            assert(r@ == before.push(c));
            lemma_views_push(before, c);
            lemma_views_push(settings.ignore_patterns@.take(i as int), settings.ignore_patterns@[i as int]);
            assert(settings.ignore_patterns@.take(i + 1) =~= settings.ignore_patterns@.take(i as int).push(settings.ignore_patterns@[i as int]));
        }
    }
    assert(settings.ignore_patterns@.take(a as int) =~= settings.ignore_patterns@);
    let b = pair.ignore_patterns.len();
    for j in 0..b
        invariant
            b == pair.ignore_patterns@.len(),
            string_views(r@) == string_views(settings.ignore_patterns@) + string_views(
                pair.ignore_patterns@.take(j as int),
            ),
    {
        let ghost before = r@;
        let c = pair.ignore_patterns[j].clone();
        r.push(c);
        proof {
            lemma_views_push(before, c);
            lemma_views_push(pair.ignore_patterns@.take(j as int), pair.ignore_patterns@[j as int]);
            assert(pair.ignore_patterns@.take(j + 1) =~= pair.ignore_patterns@.take(j as int).push(pair.ignore_patterns@[j as int]));
            assert(string_views(r@) =~= string_views(settings.ignore_patterns@) + string_views(
                pair.ignore_patterns@.take(j + 1),
            ));
        }
    }
    assert(pair.ignore_patterns@.take(b as int) =~= pair.ignore_patterns@);
    r
}

/// The ignore set of a pair (global patterns, then the pair's).
pub fn pair_globset(pair: &SyncPair, settings: &Settings) -> (r: globset::GlobSet)
    ensures
        globs_compile(usable_patterns(string_views(settings.ignore_patterns@) + string_views(pair.ignore_patterns@)))
            ==> set_patterns(r) == usable_patterns(
            string_views(settings.ignore_patterns@) + string_views(pair.ignore_patterns@),
        ),
        !globs_compile(usable_patterns(string_views(settings.ignore_patterns@) + string_views(pair.ignore_patterns@)))
            ==> set_patterns(r).len() == 0,
{
    let patterns = pair_ignore_patterns(pair, settings);
    build_globset(&patterns)
}

/// `s` with every `\` replaced by `/`.
pub open spec fn slashed(s: Seq<char>) -> Seq<char> {
    s.map_values(|c: char| if c == '\\' { '/' } else { c })
}

/// A relative path with `/` between components.
pub fn normalize_rel(raw: &str) -> (r: String)
    ensures
        r@ == slashed(raw@),
{
    let v = chars_of(raw);
    let n = v.len();
    let mut s: Vec<char> = Vec::new();
    for i in 0..n
        invariant
            n == v@.len(),
            v@ == raw@,
            s@ == slashed(v@.take(i as int)),
    {
        s.push(if v[i] == '\\' { '/' } else { v[i] });
        assert(s@ =~= slashed(v@.take(i + 1)));
    }
    assert(v@.take(n as int) =~= v@);
    string_of(s.as_slice())
}

/// The entry for something found during a scan, from its path relative to
/// the root (as the platform writes it), its kind, length and modification
/// time; folders have size 0; no content digest yet.
pub fn scanned_entry(rel_raw: &str, is_dir: bool, len: u64, mtime: i64) -> (e: Entry)
    ensures
        e.rel@ == slashed(rel_raw@),
        e.is_dir == is_dir,
        e.size == if is_dir { 0 } else { len },
        e.mtime == mtime,
        e.digest is None,
{
    Entry { rel: normalize_rel(rel_raw), is_dir, size: if is_dir { 0 } else { len }, mtime, digest: None }
}

/// The entry with the digest of its content.
pub fn with_content(e: Entry, content: &[u8]) -> (r: Entry)
    ensures
        r.rel == e.rel,
        r.is_dir == e.is_dir,
        r.size == e.size,
        r.mtime == e.mtime,
        r.digest matches Some(d) && d@ == blake3_of(content@),
{
    Entry { digest: Some(content_digest(content)), ..e }
}

} // verus!
