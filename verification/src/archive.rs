//! Archive mode: a pair's source is kept as one archive file in its
//! destination. This module names that file, reads what an existing ZIP
//! archive holds, classifies each source file against it, previews a pass,
//! and takes the decisions of a pass (safety guards, accounting, cleanup).
use vstd::prelude::*;
use crate::text::{chars_of, string_of, trim, trimmed, skip_ws_from, skip_ws_back, strip_dots_spaces_back, str_equal};
use crate::config::{Settings, SyncPair};
use crate::compression::{archive_extension, builtin_method, clamp_spec, clamp_level, extension_of, is_builtin};
use crate::plan::{PlanItem, SyncPlan, abs_int, percent_of};
use crate::tree::{Entry, Tree, keeps_size};
use crate::paths::{join_path, join_spec, main_separator, is_separator, is_bare_drive};
use crate::textmap::{TextMap, last_wins, lemma_last_wins, pairs_view};
use crate::scan::string_views;
use crate::lists::{lemma_filter_take_step, lemma_take_all};

verus! {

/// Characters that cannot appear in a Windows file name.
pub open spec fn forbidden_in_name(c: char) -> bool {
    c == '\\' || c == '/' || c == ':' || c == '*' || c == '?' || c == '"' || c == '<' || c == '>' || c == '|'
}

/// `s` with each forbidden character replaced by `_`.
pub open spec fn name_cleaned(s: Seq<char>) -> Seq<char> {
    s.map_values(|c: char| if forbidden_in_name(c) { '_' } else { c })
}

/// `s` without its trailing dots and spaces.
pub open spec fn strip_tail(s: Seq<char>) -> Seq<char> {
    s.take(strip_dots_spaces_back(s, s.len() as int))
}

/// A usable archive name: forbidden characters become `_`, trailing dots and
/// spaces go, then surrounding whitespace, then the dots and spaces that this
/// left at the end; `archive` when nothing is left.
pub open spec fn sanitized(s: Seq<char>) -> Seq<char> {
    let t = strip_tail(trimmed(strip_tail(name_cleaned(s))));
    if t.len() == 0 {
        "archive"@
    } else {
        t
    }
}

/// Whether a character is refused in file names.
fn is_forbidden(c: char) -> (r: bool)
    ensures
        r == forbidden_in_name(c),
{
    c == '\\' || c == '/' || c == ':' || c == '*' || c == '?' || c == '"' || c == '<' || c == '>' || c == '|'
}

/// A usable archive file name made from `s` (see `sanitized`).
pub fn sanitize(s: &str) -> (r: String)
    ensures
        r@ == sanitized(s@),
{
    let v = chars_of(s);
    let n = v.len();
    let mut c: Vec<char> = Vec::new();
    for i in 0..n
        invariant
            n == v@.len(),
            v@ == s@,
            c@ == name_cleaned(v@.take(i as int)),
    {
        let ch = v[i];
        c.push(if is_forbidden(ch) { '_' } else { ch });
        assert(c@ =~= name_cleaned(v@.take(i + 1)));
    }
    assert(v@.take(n as int) =~= v@);
    let head = strip_tail_of(&c);
    let t = trim(string_of(head.as_slice()).as_str());
    let tail = strip_tail_of(&chars_of(t.as_str()));
    if tail.len() == 0 {
        "archive".to_string()
    } else {
        string_of(tail.as_slice())
    }
}

/// `v` without its trailing dots and spaces.
fn strip_tail_of(v: &Vec<char>) -> (r: Vec<char>)
    ensures
        r@ == strip_tail(v@),
{
    let n = v.len();
    let mut j: usize = n;
    while j > 0 && (v[j - 1] == '.' || v[j - 1] == ' ')
        invariant
            j <= n,
            n == v@.len(),
            strip_dots_spaces_back(v@, n as int) == strip_dots_spaces_back(v@, j as int),
        decreases j,
    {
        j = j - 1;
    }
    let mut r: Vec<char> = Vec::new();
    for i in 0..j
        invariant
            j <= n,
            n == v@.len(),
            r@ == v@.take(i as int),
    {
        r.push(v[i]);
        assert(r@ =~= v@.take(i + 1));
    }
    r
}

/// `skip_ws_from` stays within the text.
proof fn lemma_skip_ws_from_bounds(s: Seq<char>, i: int)
    requires
        0 <= i <= s.len(),
    ensures
        i <= skip_ws_from(s, i) <= s.len(),
    decreases s.len() - i,
{
    if i < s.len() && char_is_ws(s, i) {
        lemma_skip_ws_from_bounds(s, i + 1);
    }
}

/// Whether `s[i]` is whitespace.
spec fn char_is_ws(s: Seq<char>, i: int) -> bool {
    crate::text::char_is_whitespace(s[i])
}

/// `skip_ws_back` stays between its bounds.
proof fn lemma_skip_ws_back_bounds(s: Seq<char>, lo: int, j: int)
    requires
        0 <= lo <= j <= s.len(),
    ensures
        lo <= skip_ws_back(s, lo, j) <= j,
    decreases j - lo,
{
    if j > lo && char_is_ws(s, j - 1) {
        lemma_skip_ws_back_bounds(s, lo, j - 1);
    }
}

/// `strip_dots_spaces_back` stays within the text.
proof fn lemma_strip_bounds(s: Seq<char>, j: int)
    requires
        0 <= j <= s.len(),
    ensures
        0 <= strip_dots_spaces_back(s, j) <= j,
    decreases j,
{
    if j > 0 && (s[j - 1] == '.' || s[j - 1] == ' ') {
        lemma_strip_bounds(s, j - 1);
    }
}

/// What `strip_tail` leaves does not end with a dot or a space.
proof fn lemma_strip_end(s: Seq<char>, j: int)
    requires
        0 <= j <= s.len(),
    ensures
        strip_dots_spaces_back(s, j) > 0 ==> s[strip_dots_spaces_back(s, j) - 1] != '.' && s[strip_dots_spaces_back(
            s,
            j,
        ) - 1] != ' ',
    decreases j,
{
    if j > 0 && (s[j - 1] == '.' || s[j - 1] == ' ') {
        lemma_strip_end(s, j - 1);
    }
}

/// A sanitized name is never empty, holds no forbidden character, and ends
/// neither with a dot nor with a space.
pub proof fn lemma_sanitized_is_clean(s: Seq<char>)
    ensures
        sanitized(s).len() > 0,
        forall|i: int| 0 <= i < sanitized(s).len() ==> !forbidden_in_name(#[trigger] sanitized(s)[i]),
        sanitized(s).last() != '.',
        sanitized(s).last() != ' ',
{
    let c = name_cleaned(s);
    lemma_strip_bounds(c, c.len() as int);
    let h = strip_tail(c);
    let a = skip_ws_from(h, 0);
    lemma_skip_ws_from_bounds(h, 0);
    lemma_skip_ws_back_bounds(h, a, h.len() as int);
    let t0 = trimmed(h);
    lemma_strip_bounds(t0, t0.len() as int);
    lemma_strip_end(t0, t0.len() as int);
    let t = strip_tail(t0);
    if t.len() == 0 {
        reveal_strlit("archive");
        assert("archive"@.last() == 'e');
    } else {
        assert forall|i: int| 0 <= i < t.len() implies !forbidden_in_name(#[trigger] t[i]) by {
            assert(t[i] == t0[i]);
            assert(t0[i] == h[a + i]);
            assert(h[a + i] == c[a + i]);
        }
        assert(t.last() == t0[t.len() - 1]);
    }
}

/// The name an archive is made from: its own name, or the pair's name when
/// that is blank.
pub open spec fn archive_base_name(pair: SyncPair) -> Seq<char> {
    if trimmed(pair.compression.archive_name@).len() == 0 {
        pair.name@
    } else {
        pair.compression.archive_name@
    }
}

/// The file name of a pair's archive: the sanitized base name and the
/// extension of the method.
pub open spec fn archive_file_name_spec(pair: SyncPair) -> Seq<char> {
    sanitized(archive_base_name(pair)) + extension_of(pair.compression.method@)
}

/// The path of a pair's archive, for the platform separator `sep`.
pub open spec fn archive_path_spec(pair: SyncPair, sep: char) -> Seq<char> {
    join_spec(pair.destination@, archive_file_name_spec(pair), sep)
}

/// No archive extension holds a character refused in file names.
proof fn lemma_extension_is_clean(method: Seq<char>)
    ensures
        forall|i: int| 0 <= i < extension_of(method).len() ==> !forbidden_in_name(#[trigger] extension_of(method)[i]),
{
    reveal_strlit(".zpaq");
    reveal_strlit(".7z");
    reveal_strlit(".rar");
    reveal_strlit(".tar.zst");
    reveal_strlit(".tar.xz");
    reveal_strlit(".tar.gz");
    reveal_strlit(".tar.bz2");
    reveal_strlit(".tar.lz4");
    reveal_strlit(".zip");
}

/// A pair's archive lies directly inside its destination folder: its path is
/// the destination, then the separator `sep`, then one component in which
/// neither `/` nor `\` occurs. (A destination that is empty, already ends
/// with a separator or is a bare drive takes the name without one.)
pub proof fn lemma_archive_inside_destination(pair: SyncPair, sep: char)
    requires
        sep == '/' || sep == '\\',
        pair.destination@.len() > 0,
        !is_separator(pair.destination@.last(), sep),
        !is_bare_drive(pair.destination@, sep),
    ensures
        ({
            let r = archive_path_spec(pair, sep);
            let d = pair.destination@;
            &&& r.len() > d.len() + 1
            &&& r.subrange(0, d.len() as int) == d
            &&& r[d.len() as int] == sep
            &&& forall|i: int| d.len() < i < r.len() ==> #[trigger] r[i] != '/' && r[i] != '\\'
        }),
{
    let r = archive_path_spec(pair, sep);
    let d = pair.destination@;
    let f = archive_file_name_spec(pair);
    let b = sanitized(archive_base_name(pair));
    let e = extension_of(pair.compression.method@);
    lemma_sanitized_is_clean(archive_base_name(pair));
    lemma_extension_is_clean(pair.compression.method@);
    assert(r == d.push(sep) + f);
    assert(r.subrange(0, d.len() as int) =~= d);
    assert forall|i: int| d.len() < i < r.len() implies #[trigger] r[i] != '/' && r[i] != '\\' by {
        let k = i - d.len() - 1;
        assert(r[i] == f[k]);
        if k < b.len() {
            assert(f[k] == b[k]);
            assert(!forbidden_in_name(b[k]));
        } else {
            assert(f[k] == e[k - b.len()]);
            assert(!forbidden_in_name(e[k - b.len()]));
        }
    }
}

/// Whether a pair keeps its source as one archive (a method other than
/// `off`, and not in backup mode).
pub open spec fn archive_mode(pair: SyncPair) -> bool {
    pair.compression.method@ != "off"@ && !pair.backup_mode
}

/// The file name of a pair's archive.
pub fn archive_file_name(pair: &SyncPair) -> (r: String)
    ensures
        r@ == archive_file_name_spec(*pair),
{
    let base = if crate::text::is_blank(pair.compression.archive_name.as_str()) {
        pair.name.as_str()
    } else {
        pair.compression.archive_name.as_str()
    };
    let mut r = sanitize(base);
    crate::text::push_str(&mut r, archive_extension(pair.compression.method.as_str()));
    r
}

/// The path of a pair's archive, joined with separator `sep`.
pub fn archive_path_with(pair: &SyncPair, sep: char) -> (r: String)
    ensures
        r@ == archive_path_spec(*pair, sep),
{
    let name = archive_file_name(pair);
    join_path(pair.destination.as_str(), name.as_str(), sep)
}

/// The path of a pair's archive on this platform.
pub fn archive_path(pair: &SyncPair) -> (r: String)
    ensures
        r@ == archive_path_spec(*pair, '/') || r@ == archive_path_spec(*pair, '\\'),
        r@ == archive_path_spec(*pair, crate::paths::platform_separator()),
{
    archive_path_with(pair, main_separator())
}

/// The archive a pair writes, joined with separator `sep`; none unless the
/// pair is in archive mode.
pub fn archive_target_with(pair: &SyncPair, sep: char) -> (r: Option<String>)
    ensures
        r is Some <==> archive_mode(*pair),
        r matches Some(p) ==> p@ == archive_path_spec(*pair, sep),
{
    if !str_equal(pair.compression.method.as_str(), "off") && !pair.backup_mode {
        Some(archive_path_with(pair, sep))
    } else {
        None
    }
}

/// The archive a pair writes on this platform; none unless the pair is in
/// archive mode.
pub fn archive_target(pair: &SyncPair) -> (r: Option<String>)
    ensures
        r is Some <==> archive_mode(*pair),
        r matches Some(p) ==> p@ == archive_path_spec(*pair, '/') || p@ == archive_path_spec(*pair, '\\'),
        r matches Some(p) ==> p@ == archive_path_spec(*pair, crate::paths::platform_separator()),
{
    archive_target_with(pair, main_separator())
}

/// The codec of the entries of a built-in archive.
pub enum ZipCodec {
    Stored,
    Bzip2,
    Zstd,
    Deflated,
}

/// How each entry of a built-in archive is compressed.
pub struct ZipEntryOptions {
    pub codec: ZipCodec,
    /// Compression level handed to the codec; none for stored entries.
    pub level: Option<i64>,
}

/// The entry options of a method: `store` keeps bytes as they are, `bzip2`
/// takes levels 1 to 9, `zstd` 1 to 22, anything else is Deflate at 0 to 9.
pub open spec fn zip_options_spec(method: Seq<char>, level: u32) -> ZipEntryOptions {
    if method == "store"@ {
        ZipEntryOptions { codec: ZipCodec::Stored, level: None }
    } else if method == "bzip2"@ {
        ZipEntryOptions { codec: ZipCodec::Bzip2, level: Some(clamp_spec(level, 1, 9) as i64) }
    } else if method == "zstd"@ {
        ZipEntryOptions { codec: ZipCodec::Zstd, level: Some(clamp_spec(level, 1, 22) as i64) }
    } else {
        ZipEntryOptions { codec: ZipCodec::Deflated, level: Some(clamp_spec(level, 0, 9) as i64) }
    }
}

/// The entry options of a method at a level (see `zip_options_spec`).
pub fn zip_options(method: &str, level: u32) -> (r: ZipEntryOptions)
    ensures
        r == zip_options_spec(method@, level),
{
    if str_equal(method, "store") {
        ZipEntryOptions { codec: ZipCodec::Stored, level: None }
    } else if str_equal(method, "bzip2") {
        ZipEntryOptions { codec: ZipCodec::Bzip2, level: Some(clamp_level(level, 1, 9) as i64) }
    } else if str_equal(method, "zstd") {
        ZipEntryOptions { codec: ZipCodec::Zstd, level: Some(clamp_level(level, 1, 22) as i64) }
    } else {
        ZipEntryOptions { codec: ZipCodec::Deflated, level: Some(clamp_level(level, 0, 9) as i64) }
    }
}


/// The name of the internal entry that records source modification times.
pub open spec fn state_entry_name() -> Seq<char> {
    ".reflet/state.json"@
}

/// The name of the internal entry that records source modification times.
pub fn state_entry() -> (r: &'static str)
    ensures
        r@ == state_entry_name(),
{
    ".reflet/state.json"
}

/// A header of an existing archive that could be read.
pub struct StoredEntry {
    pub name: String,
    pub is_dir: bool,
    pub crc: u32,
    pub size: u64,
}

/// Whether a name ends with `/` (a folder entry).
pub open spec fn ends_with_slash(n: Seq<char>) -> bool {
    n.len() > 0 && n.last() == '/'
}

/// Names of the central directory that stand for files, each bound to an
/// unknown checksum and size (so that they are recompressed); the internal
/// entry and folders are left out.
pub open spec fn placeholder_list(names: Seq<String>) -> Seq<(Seq<char>, (u32, u64))>
    decreases names.len(),
{
    if names.len() == 0 {
        seq![]
    } else {
        let p = placeholder_list(names.drop_last());
        let n = names.last()@;
        if n == state_entry_name() || ends_with_slash(n) {
            p
        } else {
            p.push((n, (0u32, 0u64)))
        }
    }
}

/// Readable file headers bound to their checksum and size; the internal
/// entry and folders are left out.
pub open spec fn stored_list(stored: Seq<StoredEntry>) -> Seq<(Seq<char>, (u32, u64))>
    decreases stored.len(),
{
    if stored.len() == 0 {
        seq![]
    } else {
        let p = stored_list(stored.drop_last());
        let e = stored.last();
        if e.name@ == state_entry_name() || e.is_dir {
            p
        } else {
            p.push((e.name@, (e.crc, e.size)))
        }
    }
}

/// What `serde_json` reads from a text as a map from names to integers
/// (in key order), if it reads one.
pub uninterp spec fn json_mtimes(text: Seq<char>) -> Option<Seq<(Seq<char>, i64)>>;

/// `serde_json::from_str` into a map from names to `i64`: the bindings in
/// key order, or none when the text is not such a map. The result depends
/// on the text alone.
#[verifier::external_body]
fn parse_mtimes(text: &str) -> (r: Option<Vec<(String, i64)>>)
    ensures
        r is Some <==> json_mtimes(text@) is Some,
        r matches Some(v) ==> crate::textmap::pairs_view(v@) == json_mtimes(text@)->0,
{
    serde_json::from_str::<std::collections::BTreeMap<String, i64>>(text).ok().map(|m| m.into_iter().collect())
}

/// The modification times recorded by the last of the internal entries that
/// could be read as such.
pub open spec fn last_parsed(texts: Seq<Seq<char>>) -> Option<Seq<(Seq<char>, i64)>>
    decreases texts.len(),
{
    if texts.len() == 0 {
        None
    } else {
        match json_mtimes(texts.last()) {
            Some(m) => Some(m),
            None => last_parsed(texts.drop_last()),
        }
    }
}

/// What an existing archive holds: checksum and size per file name, the
/// source modification times recorded at the last pass, and whether the
/// archive could be read at all.
pub struct ArchiveIndex {
    entries: TextMap<(u32, u64)>,
    mtimes: TextMap<i64>,
    readable: bool,
}

impl ArchiveIndex {
    /// Both maps are well formed.
    pub closed spec fn wf(self) -> bool {
        self.entries.wf() && self.mtimes.wf()
    }

    /// Checksum and size per file name.
    pub closed spec fn entries(self) -> TextMap<(u32, u64)> {
        self.entries
    }

    /// Recorded modification time per file name.
    pub closed spec fn mtimes(self) -> TextMap<i64> {
        self.mtimes
    }

    /// Whether the archive could be read (or was absent).
    pub closed spec fn is_readable(self) -> bool {
        self.readable
    }

    /// An index with nothing in it: the archive is absent (`readable`) or
    /// could not be opened.
    pub fn empty(readable: bool) -> (r: ArchiveIndex)
        ensures
            r.wf(),
            r.entries().keys().len() == 0,
            r.mtimes().keys().len() == 0,
            r.is_readable() == readable,
    {
        ArchiveIndex { entries: TextMap::empty(), mtimes: TextMap::empty(), readable }
    }

    /// Whether the archive could be read (or was absent).
    pub fn readable(&self) -> (r: bool)
        ensures
            r == self.is_readable(),
    {
        self.readable
    }

    /// The number of file names.
    pub fn len(&self) -> (r: usize)
        ensures
            r == self.entries().keys().len(),
    {
        self.entries.len()
    }

    /// The file name at position `i` (names are in increasing order).
    pub fn name_at(&self, i: usize) -> (r: &Vec<char>)
        requires
            i < self.entries().keys().len(),
        ensures
            r@ == self.entries().keys()[i as int],
    {
        self.entries.key_at(i)
    }

    /// Checksum and size recorded for a name.
    pub fn entry(&self, name: &[char]) -> (r: Option<(u32, u64)>)
        requires
            self.wf(),
        ensures
            r == self.entries().get(name@),
    {
        self.entries.find(name)
    }

    /// Modification time recorded for a name.
    pub fn mtime(&self, name: &[char]) -> (r: Option<i64>)
        requires
            self.wf(),
        ensures
            r == self.mtimes().get(name@),
    {
        self.mtimes.find(name)
    }
}

/// The index of a readable archive, from the names of its central directory,
/// the headers that could be read, and the texts of its internal entries:
/// each name stands for a file (a readable header gives its checksum and
/// size, the last one winning), and the times are those of the last internal
/// entry that parses.
pub fn read_index(names: &Vec<String>, stored: &Vec<StoredEntry>, state_texts: &Vec<String>) -> (idx: ArchiveIndex)
    ensures
        idx.wf(),
        idx.is_readable(),
        idx.entries().represents(last_wins(placeholder_list(names@) + stored_list(stored@))),
        match last_parsed(string_views(state_texts@)) {
            Some(m) => idx.mtimes().represents(last_wins(m)),
            None => idx.mtimes().keys().len() == 0,
        },
{
    let mut list: Vec<(String, (u32, u64))> = Vec::new();
    let n = names.len();
    for i in 0..n
        invariant
            n == names@.len(),
            pairs_view(list@) == placeholder_list(names@.take(i as int)),
    {
        let name = &names[i];
        let ghost before = list@;
        assert(names@.take(i + 1).drop_last() =~= names@.take(i as int));
        let skip = str_equal(name.as_str(), state_entry()) || ends_in_slash(name.as_str());
        if !skip {
            list.push((name.clone(), (0u32, 0u64)));
            assert(pairs_view(list@) =~= pairs_view(before).push((name@, (0u32, 0u64))));
        }
    }
    proof { lemma_take_all(names@); }
    let ghost head = pairs_view(list@);
    let m = stored.len();
    for i in 0..m
        invariant
            m == stored@.len(),
            pairs_view(list@) == head + stored_list(stored@.take(i as int)),
    {
        let e = &stored[i];
        let ghost before = list@;
        assert(stored@.take(i + 1).drop_last() =~= stored@.take(i as int));
        if !(str_equal(e.name.as_str(), state_entry()) || e.is_dir) {
            list.push((e.name.clone(), (e.crc, e.size)));
            assert(pairs_view(list@) =~= pairs_view(before).push((e.name@, (e.crc, e.size))));
            assert(head + stored_list(stored@.take(i + 1)) =~= (head + stored_list(stored@.take(i as int))).push(
                (e.name@, (e.crc, e.size)),
            ));
        }
    }
    proof { lemma_take_all(stored@); }
    let entries = TextMap::from_list(&list);
    let mut parsed: Option<Vec<(String, i64)>> = None;
    let k = state_texts.len();
    for i in 0..k
        invariant
            k == state_texts@.len(),
            match last_parsed(string_views(state_texts@.take(i as int))) {
                Some(mm) => parsed matches Some(v) && pairs_view(v@) == mm,
                None => parsed is None,
            },
    {
        assert(string_views(state_texts@.take(i + 1)).drop_last() =~= string_views(state_texts@.take(i as int)));
        assert(string_views(state_texts@.take(i + 1)).last() == state_texts@[i as int]@);
        match parse_mtimes(state_texts[i].as_str()) {
            Some(v) => {
                parsed = Some(v);
            },
            None => {},
        }
    }
    proof { lemma_take_all(state_texts@); }
    let mtimes = match parsed {
        Some(v) => TextMap::from_list(&v),
        None => TextMap::empty(),
    };
    ArchiveIndex { entries, mtimes, readable: true }
}

/// Whether a text ends with `/`.
fn ends_in_slash(s: &str) -> (r: bool)
    ensures
        r == ends_with_slash(s@),
{
    let v = chars_of(s);
    v.len() > 0 && v[v.len() - 1] == '/'
}


/// How a source file compares with the archive.
pub enum Change {
    /// Not in the archive.
    New,
    /// In the archive with other content.
    Changed,
    /// In the archive as it is.
    Unchanged,
}

/// A source file to archive: its path, size and modification time, and the
/// CRC-32 of its content when that was read (`None` when not read or when
/// reading failed).
pub struct ArchiveFile {
    pub rel: String,
    pub size: u64,
    pub mtime: i64,
    pub crc: Option<u32>,
}

/// Whether size and recorded modification time (within `tol` seconds) show
/// a file unchanged without reading it; never when content is verified.
pub open spec fn fast_path_holds(size: u64, mtime: i64, stored: (u32, u64), recorded: Option<i64>, tol: i64, verify: bool) -> bool {
    &&& !verify
    &&& size == stored.1
    &&& match recorded {
        Some(m) => abs_int(mtime - m) <= tol,
        None => false,
    }
}

/// Whether a file's CRC-32 is needed to classify it: it is in the archive and
/// the fast path does not settle it.
pub open spec fn crc_needed(rel: Seq<char>, size: u64, mtime: i64, idx: ArchiveIndex, tol: i64, verify: bool) -> bool {
    match idx.entries().get(rel) {
        None => false,
        Some(e) => !fast_path_holds(size, mtime, e, idx.mtimes().get(rel), tol, verify),
    }
}

/// How a file compares with the archive: new when absent; unchanged when the
/// fast path holds, or when its CRC-32 and size match the stored ones;
/// changed otherwise.
pub open spec fn classify_spec(f: ArchiveFile, idx: ArchiveIndex, tol: i64, verify: bool) -> Change {
    match idx.entries().get(f.rel@) {
        None => Change::New,
        Some(e) => if fast_path_holds(f.size, f.mtime, e, idx.mtimes().get(f.rel@), tol, verify) {
            Change::Unchanged
        } else if f.crc == Some(e.0) && f.size == e.1 {
            Change::Unchanged
        } else {
            Change::Changed
        },
    }
}

/// Whether the fast path holds for a file recorded with `stored`.
fn fast_path(size: u64, mtime: i64, stored: (u32, u64), recorded: Option<i64>, tol: i64, verify: bool) -> (r: bool)
    ensures
        r == fast_path_holds(size, mtime, stored, recorded, tol, verify),
{
    if verify || size != stored.1 {
        return false;
    }
    match recorded {
        Some(m) => {
            let d: i128 = mtime as i128 - m as i128;
            let a: i128 = if d < 0 { -d } else { d };
            a <= tol as i128
        },
        None => false,
    }
}

/// Whether the CRC-32 of a file must be read to classify it.
pub fn needs_crc(idx: &ArchiveIndex, rel: &str, size: u64, mtime: i64, tol: i64, verify: bool) -> (r: bool)
    requires
        idx.wf(),
    ensures
        r == crc_needed(rel@, size, mtime, *idx, tol, verify),
{
    let key = chars_of(rel);
    match idx.entry(key.as_slice()) {
        None => false,
        Some(e) => !fast_path(size, mtime, e, idx.mtime(key.as_slice()), tol, verify),
    }
}

/// How a file compares with the archive (see `classify_spec`).
pub fn classify(f: &ArchiveFile, idx: &ArchiveIndex, tol: i64, verify: bool) -> (r: Change)
    requires
        idx.wf(),
    ensures
        r == classify_spec(*f, *idx, tol, verify),
{
    let key = chars_of(f.rel.as_str());
    match idx.entry(key.as_slice()) {
        None => Change::New,
        Some(e) => {
            if fast_path(f.size, f.mtime, e, idx.mtime(key.as_slice()), tol, verify) {
                Change::Unchanged
            } else {
                match f.crc {
                    Some(c) => if c == e.0 && f.size == e.1 {
                        Change::Unchanged
                    } else {
                        Change::Changed
                    },
                    None => Change::Changed,
                }
            }
        },
    }
}

/// The files of a listing that go into the archive: files (not folders)
/// within the pair's size bounds.
pub open spec fn archived_entries(entries: Seq<Entry>, min: u64, max: u64) -> Seq<Entry> {
    entries.filter(|e: Entry| !e.is_dir && keeps_size(e, min, max))
}

/// Whether `f` is the (not yet read) archive file of entry `e`.
pub open spec fn file_of(f: ArchiveFile, e: Entry) -> bool {
    f.rel@ == e.rel@ && f.size == e.size && f.mtime == e.mtime && f.crc is None
}

/// The files of a source listing to archive, in listing order, none of them
/// read yet.
pub fn source_files(pair: &SyncPair, listing: &Tree) -> (r: Vec<ArchiveFile>)
    ensures
        r@.len() == archived_entries(listing.entries(), pair.min_file_size, pair.max_file_size).len(),
        forall|k: int|
            0 <= k < r@.len() ==> file_of(
                #[trigger] r@[k],
                archived_entries(listing.entries(), pair.min_file_size, pair.max_file_size)[k],
            ),
        forall|k: int|
            0 <= k < r@.len() ==> crate::tree::within_size_bounds(
                (#[trigger] r@[k]).size,
                pair.min_file_size,
                pair.max_file_size,
            ),
{
    let min = pair.min_file_size;
    let max = pair.max_file_size;
    let ghost pred = |e: Entry| !e.is_dir && keeps_size(e, min, max);
    let ghost es = listing.entries();
    let n = listing.len();
    let mut r: Vec<ArchiveFile> = Vec::new();
    for i in 0..n
        invariant
            n == es.len(),
            es == listing.entries(),
            pred == (|e: Entry| !e.is_dir && keeps_size(e, min, max)),
            r@.len() == es.take(i as int).filter(pred).len(),
            forall|k: int| 0 <= k < r@.len() ==> file_of(#[trigger] r@[k], es.take(i as int).filter(pred)[k]),
    {
        let e = listing.get(i);
        proof {
            lemma_filter_take_step(es, i as int, pred);
        }
        if !e.is_dir && (min == 0 || e.size >= min) && (max == 0 || e.size <= max) {
            let ghost before = r@;
            r.push(ArchiveFile { rel: e.rel.clone(), size: e.size, mtime: e.mtime, crc: None });
            proof {
                let fs = es.take(i + 1).filter(pred);
                assert forall|k: int| 0 <= k < r@.len() implies file_of(#[trigger] r@[k], fs[k]) by {
                    if k < before.len() {
                        assert(r@[k] == before[k]);
                    }
                }
            }
        }
    }
    proof {
        lemma_take_all(es);
        let a = archived_entries(es, min, max);
        assert(a == es.filter(pred));
        es.filter_lemma(pred);
        assert forall|k: int| 0 <= k < r@.len() implies crate::tree::within_size_bounds((#[trigger] r@[k]).size, min, max) by {
            assert(file_of(r@[k], a[k]));
            assert(pred(a[k]));
        }
    }
    r
}

/// Whether a preview line names `rel` with a size and a reason.
pub open spec fn item_is(it: PlanItem, rel: Seq<char>, size: u64, reason: Seq<char>) -> bool {
    it.rel@ == rel && !it.is_dir && it.size == size && it.reason@ == reason
}

/// Whether preview lines name the given files, one each, with a reason.
pub open spec fn file_lines(items: Seq<PlanItem>, files: Seq<ArchiveFile>, reason: Seq<char>) -> bool {
    &&& items.len() == files.len()
    &&& forall|k: int| 0 <= k < items.len() ==> item_is(#[trigger] items[k], files[k].rel@, files[k].size, reason)
}

/// Whether preview lines name the given paths, one each, with size 0 and a
/// reason.
pub open spec fn name_lines(items: Seq<PlanItem>, names: Seq<Seq<char>>, reason: Seq<char>) -> bool {
    &&& items.len() == names.len()
    &&& forall|k: int| 0 <= k < items.len() ==> item_is(#[trigger] items[k], names[k], 0, reason)
}

/// A preview line for a file (not a folder).
pub fn item(rel: &str, size: u64, reason: &str) -> (r: PlanItem)
    ensures
        item_is(r, rel@, size, reason@),
{
    PlanItem { rel: rel.to_string(), is_dir: false, size, reason: reason.to_string() }
}

/// Total size of some files.
pub open spec fn file_sizes(files: Seq<ArchiveFile>) -> int
    decreases files.len(),
{
    if files.len() == 0 {
        0
    } else {
        file_sizes(files.drop_last()) + files.last().size
    }
}

/// The files that classify as `c`.
pub open spec fn with_change(files: Seq<ArchiveFile>, idx: ArchiveIndex, tol: i64, verify: bool, c: Change) -> Seq<ArchiveFile> {
    files.filter(|f: ArchiveFile| classify_spec(f, idx, tol, verify) == c)
}

/// Whether some file has path `k`.
pub open spec fn has_rel(files: Seq<ArchiveFile>, k: Seq<char>) -> bool {
    exists|i: int| 0 <= i < files.len() && files[i].rel@ == k
}

/// Names of the archive that no source file has any more, in name order.
pub open spec fn removed_names(idx: ArchiveIndex, files: Seq<ArchiveFile>) -> Seq<Seq<char>> {
    idx.entries().keys().filter(|k: Seq<char>| !has_rel(files, k))
}

/// Destination entries other than the archive itself.
pub open spec fn cleanup_names(dest: Seq<Seq<char>>, keep: Seq<char>) -> Seq<Seq<char>> {
    dest.filter(|n: Seq<char>| n != keep)
}

/// Adding a file adds its size.
proof fn lemma_file_sizes_push(s: Seq<ArchiveFile>, f: ArchiveFile)
    ensures
        file_sizes(s.push(f)) == file_sizes(s) + f.size,
{
    assert(s.push(f).drop_last() =~= s);
}

/// A prefix weighs no more than the whole.
proof fn lemma_file_sizes_prefix(s: Seq<ArchiveFile>, i: int)
    requires
        0 <= i <= s.len(),
    ensures
        0 <= file_sizes(s.take(i)) <= file_sizes(s),
    decreases s.len(),
{
    if i == s.len() {
        assert(s.take(i) =~= s);
        if s.len() > 0 {
            lemma_file_sizes_prefix(s.drop_last(), 0);
        }
    } else {
        assert(s.drop_last().take(i) =~= s.take(i));
        lemma_file_sizes_prefix(s.drop_last(), i);
    }
}

/// Lines stay in step with their files when both grow by one.
proof fn lemma_file_lines_push(items: Seq<PlanItem>, files: Seq<ArchiveFile>, reason: Seq<char>, it: PlanItem, f: ArchiveFile)
    requires
        file_lines(items, files, reason),
        item_is(it, f.rel@, f.size, reason),
    ensures
        file_lines(items.push(it), files.push(f), reason),
{
    assert forall|k: int| 0 <= k < items.len() + 1 implies item_is(
        #[trigger] items.push(it)[k],
        files.push(f)[k].rel@,
        files.push(f)[k].size,
        reason,
    ) by {
        if k < items.len() {
            assert(items.push(it)[k] == items[k]);
            assert(files.push(f)[k] == files[k]);
        }
    }
}

/// Lines stay in step with their names when both grow by one.
proof fn lemma_name_lines_push(items: Seq<PlanItem>, names: Seq<Seq<char>>, reason: Seq<char>, it: PlanItem, n: Seq<char>)
    requires
        name_lines(items, names, reason),
        item_is(it, n, 0, reason),
    ensures
        name_lines(items.push(it), names.push(n), reason),
{
    assert forall|k: int| 0 <= k < items.len() + 1 implies item_is(#[trigger] items.push(it)[k], names.push(n)[k], 0, reason) by {
        if k < items.len() {
            assert(items.push(it)[k] == items[k]);
            assert(names.push(n)[k] == names[k]);
        }
    }
}

/// Lines for the new and the changed files, and their total size.
fn change_lines(files: &Vec<ArchiveFile>, idx: &ArchiveIndex, tol: i64, verify: bool) -> (r: (Vec<PlanItem>, Vec<PlanItem>, u64))
    requires
        idx.wf(),
        file_sizes(files@) <= u64::MAX,
    ensures
        file_lines(r.0@, with_change(files@, *idx, tol, verify, Change::New), "nouveau"@),
        file_lines(r.1@, with_change(files@, *idx, tol, verify, Change::Changed), "modifié"@),
        r.2 == file_sizes(with_change(files@, *idx, tol, verify, Change::New)) + file_sizes(
            with_change(files@, *idx, tol, verify, Change::Changed),
        ),
{
    let ghost pn = |f: ArchiveFile| classify_spec(f, *idx, tol, verify) == Change::New;
    let ghost pc = |f: ArchiveFile| classify_spec(f, *idx, tol, verify) == Change::Changed;
    let mut copy: Vec<PlanItem> = Vec::new();
    let mut over: Vec<PlanItem> = Vec::new();
    let mut bytes: u64 = 0;
    let n = files.len();
    for i in 0..n
        invariant
            n == files@.len(),
            idx.wf(),
            pn == (|f: ArchiveFile| classify_spec(f, *idx, tol, verify) == Change::New),
            pc == (|f: ArchiveFile| classify_spec(f, *idx, tol, verify) == Change::Changed),
            file_lines(copy@, files@.take(i as int).filter(pn), "nouveau"@),
            file_lines(over@, files@.take(i as int).filter(pc), "modifié"@),
            bytes == file_sizes(files@.take(i as int).filter(pn)) + file_sizes(files@.take(i as int).filter(pc)),
            file_sizes(files@.take(i as int).filter(pn)) + file_sizes(files@.take(i as int).filter(pc))
                <= file_sizes(files@.take(i as int)),
            file_sizes(files@) <= u64::MAX,
    {
        let f = &files[i];
        let ghost sn = files@.take(i as int).filter(pn);
        let ghost sc = files@.take(i as int).filter(pc);
        proof {
            lemma_filter_take_step(files@, i as int, pn);
            lemma_filter_take_step(files@, i as int, pc);
            assert(files@.take(i + 1) =~= files@.take(i as int).push(*f));
            lemma_file_sizes_push(files@.take(i as int), *f);
            lemma_file_sizes_prefix(files@, i + 1);
            lemma_file_sizes_push(sn, *f);
            lemma_file_sizes_push(sc, *f);
        }
        match classify(f, idx, tol, verify) {
            Change::New => {
                let it = item(f.rel.as_str(), f.size, "nouveau");
                proof {
                    lemma_file_lines_push(copy@, sn, "nouveau"@, it, *f);
                }
                copy.push(it);
                bytes = bytes + f.size;
            },
            Change::Changed => {
                let it = item(f.rel.as_str(), f.size, "modifié");
                proof {
                    lemma_file_lines_push(over@, sc, "modifié"@, it, *f);
                }
                over.push(it);
                bytes = bytes + f.size;
            },
            Change::Unchanged => {},
        }
    }
    proof {
        lemma_take_all(files@);
    }
    (copy, over, bytes)
}

/// The set of paths of some files.
fn rel_set(files: &Vec<ArchiveFile>) -> (r: TextMap<bool>)
    ensures
        r.wf(),
        forall|k: Seq<char>| (#[trigger] r.get(k) is Some) <==> has_rel(files@, k),
{
    let mut list: Vec<(String, bool)> = Vec::new();
    let n = files.len();
    for i in 0..n
        invariant
            n == files@.len(),
            list@.len() == i,
            forall|j: int| 0 <= j < i ==> (#[trigger] list@[j]).0@ == files@[j].rel@,
    {
        list.push((files[i].rel.clone(), true));
    }
    let r = TextMap::from_list(&list);
    proof {
        let lv = pairs_view(list@);
        let m = last_wins(lv);
        lemma_last_wins(lv);
        assert forall|k: Seq<char>| (#[trigger] r.get(k) is Some) <==> has_rel(files@, k) by {
            r.lemma_get_represented(m, k);
            if has_rel(files@, k) {
                let i = choose|i: int| 0 <= i < files@.len() && files@[i].rel@ == k;
                assert(lv[i].0 == k);
            }
            if m.contains_key(k) {
                let j = choose|j: int| 0 <= j < lv.len() && lv[j].0 == k;
                assert(files@[j].rel@ == k);
            }
        }
    }
    r
}

/// Lines for the archive names that no source file has any more.
fn removed_lines(idx: &ArchiveIndex, files: &Vec<ArchiveFile>) -> (r: (Vec<PlanItem>, Ghost<Seq<Seq<char>>>))
    requires
        idx.wf(),
    ensures
        r.1@ == removed_names(*idx, files@),
        name_lines(r.0@, r.1@, "retiré de l'archive"@),
{
    let present = rel_set(files);
    let ghost keys = idx.entries().keys();
    let ghost pg = |k: Seq<char>| !has_rel(files@, k);
    let mut out: Vec<PlanItem> = Vec::new();
    let n = idx.len();
    for i in 0..n
        invariant
            n == keys.len(),
            keys == idx.entries().keys(),
            present.wf(),
            forall|k: Seq<char>| (#[trigger] present.get(k) is Some) <==> has_rel(files@, k),
            pg == (|k: Seq<char>| !has_rel(files@, k)),
            name_lines(out@, keys.take(i as int).filter(pg), "retiré de l'archive"@),
    {
        let name = idx.name_at(i);
        proof {
            lemma_filter_take_step(keys, i as int, pg);
        }
        if present.find(name.as_slice()).is_none() {
            let text = string_of(name.as_slice());
            let it = item(text.as_str(), 0, "retiré de l'archive");
            proof {
                lemma_name_lines_push(out@, keys.take(i as int).filter(pg), "retiré de l'archive"@, it, keys[i as int]);
            }
            out.push(it);
        }
    }
    proof {
        lemma_take_all(keys);
    }
    (out, Ghost(removed_names(*idx, files@)))
}

/// Lines for the destination entries other than the archive.
fn cleanup_lines(dest: &Vec<String>, keep: &str) -> (r: Vec<PlanItem>)
    ensures
        name_lines(r@, cleanup_names(string_views(dest@), keep@), "nettoyage destination"@),
{
    let ghost names = string_views(dest@);
    let ghost pk = |n: Seq<char>| n != keep@;
    let mut out: Vec<PlanItem> = Vec::new();
    let n = dest.len();
    for i in 0..n
        invariant
            n == names.len(),
            names == string_views(dest@),
            pk == (|n: Seq<char>| n != keep@),
            name_lines(out@, names.take(i as int).filter(pk), "nettoyage destination"@),
    {
        proof {
            lemma_filter_take_step(names, i as int, pk);
            assert(names[i as int] == dest@[i as int]@);
        }
        if !str_equal(dest[i].as_str(), keep) {
            let it = item(dest[i].as_str(), 0, "nettoyage destination");
            proof {
                lemma_name_lines_push(out@, names.take(i as int).filter(pk), "nettoyage destination"@, it, names[i as int]);
            }
            out.push(it);
        }
    }
    proof {
        lemma_take_all(names);
    }
    out
}

/// Whether content is verified in archive mode (any setting but `off`).
pub open spec fn archive_verifies(settings: Settings) -> bool {
    settings.verify_by_content@ != "off"@
}

/// Whether the next pass of `pair` leaves its archive alone whatever the
/// threshold: a built-in archive that exists but cannot be read, or an
/// external one while the source is empty.
pub open spec fn archive_left_alone(pair: SyncPair, files: Seq<ArchiveFile>, idx: ArchiveIndex, arc_exists: bool) -> bool {
    if builtin_method(pair.compression.method@) {
        arc_exists && !idx.is_readable()
    } else {
        files.len() == 0 && arc_exists
    }
}

/// Whether the next pass of `pair` is held back, as the pass itself decides
/// it: for a built-in archive when `archive_start_spec` does not let it
/// proceed, for an external one when the source is empty while an archive
/// exists; in both cases also when cleaning the destination (once the
/// archive is written into it) would be held back by the threshold.
pub open spec fn archive_run_held(pair: SyncPair, settings: Settings, files: Seq<ArchiveFile>, idx: ArchiveIndex, dest: Seq<Seq<char>>, arc_exists: bool) -> bool {
    let keep = archive_file_name_spec(pair);
    let t = settings.delete_safety_threshold_pct;
    let cleanup_held = crate::archive_pass::cleanup_holds(crate::archive_pass::names_after(dest, keep), keep, t);
    if builtin_method(pair.compression.method@) {
        !(crate::archive_pass::archive_start_spec(arc_exists, idx, files, t) is Proceed) || cleanup_held
    } else {
        (files.len() == 0 && arc_exists) || cleanup_held
    }
}

/// Whether `r` previews the next archive pass of `pair` for the given source
/// files, archive index, destination entries and whether the archive exists:
/// for a built-in ZIP codec, new files are copied, changed ones overwritten,
/// names gone from the source leave the archive and the destination is
/// cleaned of anything but the archive, with the share of the archive that
/// would go; for an external format the archive is rebuilt from every file.
/// Either way the preview says whether the pass would be held back
/// (`archive_run_held`).
pub open spec fn is_archive_plan(r: SyncPlan, pair: SyncPair, settings: Settings, files: Seq<ArchiveFile>, idx: ArchiveIndex, dest: Seq<Seq<char>>, arc_exists: bool) -> bool {
    let d = cleanup_names(dest, archive_file_name_spec(pair));
    &&& r.to_create_dir@.len() == 0
    &&& r.aborted_safety == archive_run_held(pair, settings, files, idx, dest, arc_exists)
    &&& if builtin_method(pair.compression.method@) {
        let tol = settings.mtime_tolerance_sec;
        let verify = archive_verifies(settings);
        let news = with_change(files, idx, tol, verify, Change::New);
        let changed = with_change(files, idx, tol, verify, Change::Changed);
        let gone = removed_names(idx, files);
        let prev = idx.entries().keys().len();
        &&& file_lines(r.to_copy@, news, "nouveau"@)
        &&& file_lines(r.to_overwrite@, changed, "modifié"@)
        &&& r.to_delete@.len() == gone.len() + d.len()
        &&& name_lines(r.to_delete@.take(gone.len() as int), gone, "retiré de l'archive"@)
        &&& name_lines(r.to_delete@.skip(gone.len() as int), d, "nettoyage destination"@)
        &&& r.total_bytes == file_sizes(news) + file_sizes(changed)
        &&& r.delete_pct == percent_of(gone.len() as int, prev as int)
    } else {
        &&& r.to_copy@.len() == 0
        &&& file_lines(r.to_overwrite@, files, "archive (reconstruction complète)"@)
        &&& name_lines(r.to_delete@, d, "nettoyage destination"@)
        &&& r.total_bytes == file_sizes(files)
        &&& r.delete_pct == 0
    }
}

/// Lines for every file, for an archive rebuilt from scratch, and their
/// total size.
fn rebuild_lines(files: &Vec<ArchiveFile>) -> (r: (Vec<PlanItem>, u64))
    requires
        file_sizes(files@) <= u64::MAX,
    ensures
        file_lines(r.0@, files@, "archive (reconstruction complète)"@),
        r.1 == file_sizes(files@),
{
    let mut out: Vec<PlanItem> = Vec::new();
    let mut bytes: u64 = 0;
    let n = files.len();
    for i in 0..n
        invariant
            n == files@.len(),
            file_lines(out@, files@.take(i as int), "archive (reconstruction complète)"@),
            bytes == file_sizes(files@.take(i as int)),
            file_sizes(files@) <= u64::MAX,
    {
        let f = &files[i];
        let it = item(f.rel.as_str(), f.size, "archive (reconstruction complète)");
        proof {
            assert(files@.take(i + 1) =~= files@.take(i as int).push(*f));
            lemma_file_sizes_push(files@.take(i as int), *f);
            lemma_file_sizes_prefix(files@, i + 1);
            lemma_file_lines_push(out@, files@.take(i as int), "archive (reconstruction complète)"@, it, *f);
        }
        out.push(it);
        bytes = bytes + f.size;
    }
    proof {
        lemma_take_all(files@);
    }
    (out, bytes)
}

/// The preview of a pair's next archive pass (see `is_archive_plan`), from
/// its source files (read where `needs_crc` asked), the index of its
/// existing archive and the names in its destination folder.
pub fn plan_archive(pair: &SyncPair, settings: &Settings, files: &Vec<ArchiveFile>, idx: &ArchiveIndex, dest_names: &Vec<String>, arc_exists: bool) -> (r: SyncPlan)
    requires
        idx.wf(),
        file_sizes(files@) <= u64::MAX,
    ensures
        is_archive_plan(r, *pair, *settings, files@, *idx, string_views(dest_names@), arc_exists),
{
    let keep = archive_file_name(pair);
    let t = settings.delete_safety_threshold_pct;
    let after = crate::archive_pass::names_after_write(dest_names, keep.as_str());
    let cleanup_held = match crate::archive_pass::cleanup_decision(&after, keep.as_str(), t) {
        crate::archive_pass::CleanupDecision::HeldBack { .. } => true,
        _ => false,
    };
    let mut cleanup = cleanup_lines(dest_names, keep.as_str());
    if !is_builtin(pair.compression.method.as_str()) {
        let (over, bytes) = rebuild_lines(files);
        return SyncPlan {
            to_create_dir: Vec::new(),
            to_copy: Vec::new(),
            to_overwrite: over,
            to_delete: cleanup,
            total_bytes: bytes,
            delete_pct: 0,
            aborted_safety: (files.len() == 0 && arc_exists) || cleanup_held,
        };
    }
    let start_held = match crate::archive_pass::archive_start(arc_exists, idx, files, t) {
        crate::archive_pass::ArchiveStart::Proceed => false,
        _ => true,
    };
    let tol = settings.mtime_tolerance_sec;
    let verify = !str_equal(settings.verify_by_content.as_str(), "off");
    let (copy, over, bytes) = change_lines(files, idx, tol, verify);
    let (mut gone, Ghost(gone_names)) = removed_lines(idx, files);
    let removed = gone.len();
    let ghost gone_items = gone@;
    let ghost clean_items = cleanup@;
    gone.append(&mut cleanup);
    assert(gone@.take(removed as int) =~= gone_items);
    assert(gone@.skip(removed as int) =~= clean_items);
    let prev = idx.len();
    let mut pct: u32 = 0;
    if prev > 0 {
        assert(gone_names.len() <= prev) by {
            idx.entries().keys().lemma_filter_len(|k: Seq<char>| !has_rel(files@, k));
        }
        let q: u128 = (removed as u128) * 100 / (prev as u128);
        assert(q <= 100) by (nonlinear_arith)
            requires
                removed <= prev,
                prev > 0,
                q == (removed as int) * 100 / (prev as int),
        ;
        pct = q as u32;
    }
    SyncPlan {
        to_create_dir: Vec::new(),
        to_copy: copy,
        to_overwrite: over,
        to_delete: gone,
        total_bytes: bytes,
        delete_pct: pct,
        aborted_safety: start_held || cleanup_held,
    }
}


/// The archive names that no source file has any more, in name order.
pub fn archive_removals(idx: &ArchiveIndex, files: &Vec<ArchiveFile>) -> (r: Vec<String>)
    requires
        idx.wf(),
    ensures
        string_views(r@) == removed_names(*idx, files@),
{
    let (lines, Ghost(gone)) = removed_lines(idx, files);
    let mut r: Vec<String> = Vec::new();
    let n = lines.len();
    for i in 0..n
        invariant
            n == lines@.len(),
            name_lines(lines@, gone, "retiré de l'archive"@),
            r@.len() == i,
            forall|k: int| 0 <= k < i ==> (#[trigger] r@[k])@ == gone[k],
    {
        r.push(lines[i].rel.clone());
    }
    assert(string_views(r@) =~= gone);
    r
}


/// Whether the index records `f` as it is now: its size (with any checksum)
/// and its modification time.
pub open spec fn recorded_as_is(idx: ArchiveIndex, f: ArchiveFile) -> bool {
    &&& idx.entries().get(f.rel@) matches Some(e) && e.1 == f.size
    &&& idx.mtimes().get(f.rel@) == Some(f.mtime)
}

/// A destination holding only the archive has nothing to clean.
proof fn lemma_no_cleanup(dest: Seq<Seq<char>>, keep: Seq<char>)
    requires
        forall|i: int| 0 <= i < dest.len() ==> dest[i] == keep,
    ensures
        cleanup_names(dest, keep).len() == 0,
    decreases dest.len(),
{
    reveal(Seq::filter);
    if dest.len() > 0 {
        lemma_no_cleanup(dest.drop_last(), keep);
        assert(dest.last() == keep);
    }
}

/// A second archive pass over an unchanged source finds nothing to do: when
/// the archive can be read, its index records every file with its size and
/// time and holds no other name, the destination holds only the archive,
/// and content is not verified (with a non-negative tolerance), a built-in
/// archive plan adds, rewrites and removes nothing, weighs nothing and holds
/// nothing back.
pub proof fn lemma_archive_second_pass_idle(r: SyncPlan, pair: SyncPair, settings: Settings, files: Seq<ArchiveFile>, idx: ArchiveIndex, dest: Seq<Seq<char>>, arc_exists: bool)
    requires
        is_archive_plan(r, pair, settings, files, idx, dest, arc_exists),
        idx.is_readable(),
        forall|i: int| 0 <= i < dest.len() ==> dest[i] == archive_file_name_spec(pair),
        builtin_method(pair.compression.method@),
        !archive_verifies(settings),
        settings.mtime_tolerance_sec >= 0,
        forall|i: int| 0 <= i < files.len() ==> recorded_as_is(idx, #[trigger] files[i]),
        forall|k: int| 0 <= k < idx.entries().keys().len() ==> has_rel(files, #[trigger] idx.entries().keys()[k]),
    ensures
        r.to_copy@.len() == 0,
        r.to_overwrite@.len() == 0,
        r.to_delete@.len() == 0,
        r.total_bytes == 0,
        r.delete_pct == 0,
        !r.aborted_safety,
{
    let tol = settings.mtime_tolerance_sec;
    let verify = archive_verifies(settings);
    assert forall|i: int| 0 <= i < files.len() implies classify_spec(#[trigger] files[i], idx, tol, verify)
        == Change::Unchanged by {
        let f = files[i];
        assert(recorded_as_is(idx, f));
        assert(abs_int(f.mtime - f.mtime) == 0);
    }
    let pn = |f: ArchiveFile| classify_spec(f, idx, tol, verify) == Change::New;
    let pc = |f: ArchiveFile| classify_spec(f, idx, tol, verify) == Change::Changed;
    files.lemma_all_neg_filter_empty(pn);
    files.lemma_all_neg_filter_empty(pc);
    let keys = idx.entries().keys();
    keys.lemma_all_neg_filter_empty(|k: Seq<char>| !has_rel(files, k));
    assert(with_change(files, idx, tol, verify, Change::New) =~= Seq::<ArchiveFile>::empty());
    assert(with_change(files, idx, tol, verify, Change::Changed) =~= Seq::<ArchiveFile>::empty());
    let keep = archive_file_name_spec(pair);
    lemma_no_cleanup(dest, keep);
    let after = crate::archive_pass::names_after(dest, keep);
    assert forall|i: int| 0 <= i < after.len() implies after[i] == keep by {
        if !dest.contains(keep) && i == dest.len() {
        }
    }
    crate::archive_pass::lemma_only_archive_nothing_to_clean(after, keep);
    assert(removed_names(idx, files) =~= Seq::<Seq<char>>::empty());
}

/// The share of the archive that a preview would remove is a percentage,
/// and with a threshold of 100 or more a pass is held back only when it
/// leaves the archive alone (`archive_left_alone`).
pub proof fn lemma_archive_plan_share(r: SyncPlan, pair: SyncPair, settings: Settings, files: Seq<ArchiveFile>, idx: ArchiveIndex, dest: Seq<Seq<char>>, arc_exists: bool)
    requires
        is_archive_plan(r, pair, settings, files, idx, dest, arc_exists),
    ensures
        r.delete_pct <= 100,
        settings.delete_safety_threshold_pct >= 100 ==> (r.aborted_safety <==> archive_left_alone(
            pair,
            files,
            idx,
            arc_exists,
        )),
{
    if builtin_method(pair.compression.method@) {
        let keys = idx.entries().keys();
        keys.lemma_filter_len(|k: Seq<char>| !has_rel(files, k));
        let x = removed_names(idx, files).len() as int;
        let n = keys.len() as int;
        if n > 0 {
            assert(x * 100 / n <= 100) by (nonlinear_arith)
                requires
                    0 <= x <= n,
                    n > 0,
            ;
        }
    }
}

/// The preview reports the hold that the next pass decides: for a built-in
/// archive, the preview is held back exactly when the pass's start decision
/// (`archive_start_spec`) does not let it proceed or its cleaning decision
/// for the destination, once the archive is written into it (`cleanup_spec`),
/// holds back; for an external format, exactly when the pass's start
/// decision (`external_start_spec`, whatever signature was saved) holds back
/// or that cleaning decision holds back.
pub proof fn lemma_preview_hold_is_pass_hold(
    r: SyncPlan,
    pair: SyncPair,
    settings: Settings,
    files: Seq<ArchiveFile>,
    idx: ArchiveIndex,
    dest: Seq<Seq<char>>,
    arc_exists: bool,
    saved: Option<Seq<char>>,
    sig: Seq<char>,
    decision: crate::archive_pass::CleanupDecision,
)
    requires
        is_archive_plan(r, pair, settings, files, idx, dest, arc_exists),
        crate::archive_pass::cleanup_spec(
            crate::archive_pass::names_after(dest, archive_file_name_spec(pair)),
            archive_file_name_spec(pair),
            settings.delete_safety_threshold_pct,
            decision,
        ),
    ensures
        builtin_method(pair.compression.method@) ==> (r.aborted_safety <==> (!(crate::archive_pass::archive_start_spec(
            arc_exists,
            idx,
            files,
            settings.delete_safety_threshold_pct,
        ) is Proceed) || decision is HeldBack)),
        !builtin_method(pair.compression.method@) ==> (r.aborted_safety <==> (crate::archive_pass::external_start_spec(
            files.len(),
            arc_exists,
            saved,
            sig,
        ) is HeldBack || decision is HeldBack)),
{
}

} // verus!
