//! Platform path conventions: the separator, case folding, nesting of two
//! folders, long-path prefixes and joining.
use vstd::prelude::*;
use crate::text::{chars_of, chars_start_with, is_prefix, push_char, push_str, str_lowercase, string_of, to_lowercase};

verus! {

/// The separator of path components of the platform the library runs on:
/// `\\` on Windows, `/` elsewhere. It is fixed for a build, and all the
/// library knows of it is that it is one of the two; proofs over it hold on
/// every platform.
pub open spec fn platform_separator() -> char {
    choose|c: char| separator_char(c)
}

/// Whether `c` is one of the two path separators that platforms use.
pub open spec fn separator_char(c: char) -> bool {
    c == '/' || c == '\\'
}

/// The platform separator is `/` or `\\`.
pub proof fn lemma_platform_separator()
    ensures
        platform_separator() == '/' || platform_separator() == '\\',
{
    assert(separator_char('/'));
}

/// `std::path::MAIN_SEPARATOR`: the platform separator (`\\` on Windows,
/// `/` elsewhere).
#[verifier::external_body]
pub fn main_separator() -> (c: char)
    ensures
        c == '/' || c == '\\',
        c == platform_separator(),
{
    std::path::MAIN_SEPARATOR
}

/// Whether paths of this platform compare without regard to case (Windows):
/// whether the platform separator is `\\`.
pub fn case_insensitive_paths() -> (r: bool)
    ensures
        r == (platform_separator() == '\\'),
{
    main_separator() == '\\'
}

/// A pair's source and destination folders as the file system resolves them
/// (their canonical forms, or the paths themselves when they cannot be
/// resolved).
pub struct ResolvedFolders {
    pub source: String,
    pub destination: String,
}

/// Whether the resolved folders overlap (see `paths_overlap`).
pub fn folders_overlap(f: &ResolvedFolders) -> (r: bool)
    ensures
        exists|sep: char| (sep == '/' || sep == '\\') && r == resolved_overlap(f.source@, f.destination@, sep),
        r == resolved_overlap(f.source@, f.destination@, platform_separator()),
{
    paths_overlap(f.source.as_str(), f.destination.as_str())
}

/// A path with its case folded when `fold` holds (as on Windows).
pub fn folded_case(p: &str, fold: bool) -> (r: String)
    ensures
        r@ == (if fold { str_lowercase(p@) } else { p@ }),
{
    if fold {
        to_lowercase(p)
    } else {
        p.to_string()
    }
}

/// A resolved path as compared for nesting on the platform whose separator
/// is `sep`: lower-cased on Windows (`\`), as it is elsewhere.
pub open spec fn compared_form(p: Seq<char>, sep: char) -> Seq<char> {
    if sep == '\\' {
        str_lowercase(p)
    } else {
        p
    }
}

/// Whether two resolved folders overlap on the platform whose separator is
/// `sep`: their compared forms are equal or one lies inside the other.
pub open spec fn resolved_overlap(a: Seq<char>, b: Seq<char>, sep: char) -> bool {
    overlap_spec(compared_form(a, sep), compared_form(b, sep), sep)
}

/// Whether `child` lies strictly inside `parent`: `parent` followed by the
/// separator starts `child`.
pub open spec fn nested_in_spec(child: Seq<char>, parent: Seq<char>, sep: char) -> bool {
    child.len() > parent.len() && is_prefix(parent, child) && child[parent.len() as int] == sep
}

/// Whether two normalised paths are equal or one lies inside the other.
pub open spec fn overlap_spec(a: Seq<char>, b: Seq<char>, sep: char) -> bool {
    a == b || nested_in_spec(a, b, sep) || nested_in_spec(b, a, sep)
}

/// Whether `child` lies strictly inside `parent`.
pub fn nested_in(child: &str, parent: &str, sep: char) -> (r: bool)
    ensures
        r == nested_in_spec(child@, parent@, sep),
{
    let c = chars_of(child);
    let p = chars_of(parent);
    c.len() > p.len() && chars_start_with(c.as_slice(), p.as_slice()) && c[p.len()] == sep
}

/// Whether two normalised paths overlap (equal, or one inside the other).
pub fn normalized_overlap(a: &str, b: &str, sep: char) -> (r: bool)
    ensures
        r == overlap_spec(a@, b@, sep),
{
    let ca = chars_of(a);
    let cb = chars_of(b);
    crate::text::chars_equal(ca.as_slice(), cb.as_slice()) || nested_in(a, b, sep) || nested_in(b, a, sep)
}

/// Whether two folders overlap, given each as the file system resolves it
/// (canonical form): on this platform, with case folded on Windows, they are
/// the same folder or one lies inside the other. The platform separator is a
/// fact of the machine, so the answer is stated for `/` or `\`.
pub fn paths_overlap(a: &str, b: &str) -> (r: bool)
    ensures
        exists|sep: char| (sep == '/' || sep == '\\') && r == resolved_overlap(a@, b@, sep),
        r == resolved_overlap(a@, b@, platform_separator()),
{
    let sep = main_separator();
    let fold = sep == '\\';
    let na = folded_case(a, fold);
    let nb = folded_case(b, fold);
    let r = normalized_overlap(na.as_str(), nb.as_str(), sep);
    assert((sep == '/' || sep == '\\') && r == resolved_overlap(a@, b@, sep));
    r
}

/// `s` with every `/` replaced by `\`.
pub open spec fn backslashed(s: Seq<char>) -> Seq<char> {
    s.map_values(|c: char| if c == '/' { '\\' } else { c })
}

/// The Windows verbatim form of a path (`\\?\` prefix, backslashes), which
/// lifts the length limit and keeps trailing dots and spaces; a path already
/// starting with `\\` only gets its slashes turned. Elsewhere the path itself.
pub open spec fn verbatim_spec(p: Seq<char>, windows: bool) -> Seq<char> {
    if windows {
        let s = backslashed(p);
        if is_prefix(seq!['\\', '\\'], s) {
            s
        } else {
            seq!['\\', '\\', '?', '\\'] + s
        }
    } else {
        p
    }
}

/// The verbatim form of a path for the given platform.
pub fn verbatim_for(p: &str, windows: bool) -> (r: String)
    ensures
        r@ == verbatim_spec(p@, windows),
{
    if !windows {
        return p.to_string();
    }
    let v = chars_of(p);
    let n = v.len();
    let mut s: Vec<char> = Vec::new();
    for i in 0..n
        invariant
            n == v@.len(),
            v@ == p@,
            s@ == backslashed(v@.take(i as int)),
    {
        s.push(if v[i] == '/' { '\\' } else { v[i] });
        assert(s@ =~= backslashed(v@.take(i + 1)));
    }
    assert(v@.take(n as int) =~= v@);
    let prefix: Vec<char> = vec!['\\', '\\'];
    assert(prefix@ =~= seq!['\\', '\\']);
    if chars_start_with(s.as_slice(), prefix.as_slice()) {
        string_of(s.as_slice())
    } else {
        let mut r = String::new();
        push_char(&mut r, '\\');
        push_char(&mut r, '\\');
        push_char(&mut r, '?');
        push_char(&mut r, '\\');
        let rest = string_of(s.as_slice());
        push_str(&mut r, rest.as_str());
        assert(r@ =~= seq!['\\', '\\', '?', '\\'] + s@);
        r
    }
}

/// The verbatim form of a path on this platform.
pub fn verbatim(p: &str) -> (r: String)
    ensures
        r@ == verbatim_spec(p@, true) || r@ == verbatim_spec(p@, false),
        r@ == verbatim_spec(p@, platform_separator() == '\\'),
{
    verbatim_for(p, case_insensitive_paths())
}

/// Whether `c` separates path components (`/`, or the platform separator).
pub open spec fn is_separator(c: char, sep: char) -> bool {
    c == '/' || c == sep
}

/// Whether `base` is a bare Windows drive (`C:`), onto which a relative name
/// is joined without a separator.
pub open spec fn is_bare_drive(base: Seq<char>, sep: char) -> bool {
    &&& sep == '\\'
    &&& base.len() == 2
    &&& base[1] == ':'
    &&& (('a' <= base[0] && base[0] <= 'z') || ('A' <= base[0] && base[0] <= 'Z'))
}

/// `base` joined with the relative name `name`: a separator is inserted
/// unless `base` is empty, already ends with one, or is a bare drive.
pub open spec fn join_spec(base: Seq<char>, name: Seq<char>, sep: char) -> Seq<char> {
    if base.len() == 0 || is_separator(base.last(), sep) || is_bare_drive(base, sep) {
        base + name
    } else {
        base.push(sep) + name
    }
}

/// Joins a relative name onto a base path.
pub fn join_path(base: &str, name: &str, sep: char) -> (r: String)
    ensures
        r@ == join_spec(base@, name@, sep),
{
    let b = chars_of(base);
    let mut r = base.to_string();
    let bare_drive = sep == '\\' && b.len() == 2 && b[1] == ':' && (('a' <= b[0] && b[0] <= 'z') || ('A'
        <= b[0] && b[0] <= 'Z'));
    if !(b.len() == 0 || b[b.len() - 1] == '/' || b[b.len() - 1] == sep || bare_drive) {
        push_char(&mut r, sep);
    }
    push_str(&mut r, name);
    r
}


/// The verbatim form of a path is its own verbatim form: applying it twice
/// changes nothing more.
pub proof fn lemma_verbatim_idempotent(p: Seq<char>, windows: bool)
    ensures
        verbatim_spec(verbatim_spec(p, windows), windows) == verbatim_spec(p, windows),
{
    if windows {
        let s = backslashed(p);
        let v = verbatim_spec(p, true);
        assert(backslashed(s) =~= s);
        if is_prefix(seq!['\\', '\\'], s) {
            assert(v == s);
        } else {
            let w = seq!['\\', '\\', '?', '\\'] + s;
            assert(v == w);
            assert(backslashed(w) =~= w);
            assert(w[0] == '\\' && w[1] == '\\');
            assert(is_prefix(seq!['\\', '\\'], w)) by {
                assert(w.take(2) =~= seq!['\\', '\\']);
            }
        }
    }
}

/// Overlap is symmetric, and a folder overlaps itself (also once resolved
/// forms are compared).
pub proof fn lemma_overlap_symmetric(a: Seq<char>, b: Seq<char>, sep: char)
    ensures
        overlap_spec(a, b, sep) == overlap_spec(b, a, sep),
        overlap_spec(a, a, sep),
        resolved_overlap(a, b, sep) == resolved_overlap(b, a, sep),
        resolved_overlap(a, a, sep),
{
}

/// A folder overlaps every folder nested in it: where `b` followed by `/`
/// starts `a`, the two overlap where `/` separates components, in either
/// order, and so they do on this platform when its separator is `/`.
pub proof fn lemma_nested_folders_overlap(a: Seq<char>, b: Seq<char>)
    requires
        is_prefix(b.push('/'), a),
    ensures
        resolved_overlap(a, b, '/'),
        resolved_overlap(b, a, '/'),
        platform_separator() == '/' ==> resolved_overlap(a, b, platform_separator()),
{
    let n = b.len() as int;
    assert(a.subrange(0, n + 1) == b.push('/'));
    assert(a[n] == a.subrange(0, n + 1)[n]);
    assert(a.subrange(0, n) =~= a.subrange(0, n + 1).subrange(0, n));
    assert(a.subrange(0, n) =~= b);
    assert(nested_in_spec(a, b, '/'));
}

} // verus!
