//! The persisted configuration: global settings and the list of folder pairs.
use vstd::prelude::*;

verus! {

/// Serde default for flags that are on unless stated otherwise.
pub fn default_true() -> (r: bool)
    ensures
        r,
{
    true
}

/// Outcome of the last run of a pair.
pub struct LastRun {
    /// When it ended (RFC 3339).
    pub at: String,
    /// `ok` or `error`.
    pub status: String,
    pub copied: u64,
    pub updated: u64,
    pub deleted: u64,
    pub errors: u64,
}

/// How a pair is archived instead of mirrored.
pub struct CompressionConfig {
    /// `off`, or a method id (`deflate`, `bzip2`, `zstd`, `7z`, `tar.gz`, ...).
    pub method: String,
    pub level: u32,
    pub password: Option<String>,
    /// Archive file name without extension; the pair name when blank.
    pub archive_name: String,
}

impl Default for CompressionConfig {
    fn default() -> (r: CompressionConfig)
        ensures
            r.method@ == "off"@,
            r.level == 0,
            r.password is None,
            r.archive_name@ == Seq::<char>::empty(),
    {
        CompressionConfig {
            method: "off".to_string(),
            level: 0,
            password: None,
            archive_name: String::new(),
        }
    }
}

/// A source folder mirrored (or archived, or backed up) into a destination.
pub struct SyncPair {
    pub id: String,
    pub name: String,
    pub source: String,
    pub destination: String,
    pub enabled: bool,
    /// Seconds between automatic runs, replacing the global interval.
    pub interval_sec_override: Option<u64>,
    pub notify_pc: bool,
    pub notify_app: bool,
    /// Glob patterns excluded in addition to the global ones.
    pub ignore_patterns: Vec<String>,
    pub watch_realtime: bool,
    /// Times of day (`HH:MM`) at which to run, replacing the interval.
    pub schedule_times: Vec<String>,
    /// Files smaller than this are left out (0: no bound).
    pub min_file_size: u64,
    /// Files larger than this are left out (0: no bound).
    pub max_file_size: u64,
    pub color: String,
    pub compression: CompressionConfig,
    /// Copy the whole source into a dated folder instead of mirroring.
    pub backup_mode: bool,
    pub last_run: Option<LastRun>,
}

/// Global settings.
pub struct Settings {
    pub interval_sec: u64,
    /// `trash` or `permanent`.
    pub delete_behavior: String,
    pub autostart: bool,
    pub start_minimized: bool,
    pub confirm_deletes_with_dry_run: bool,
    pub ignore_patterns: Vec<String>,
    /// `off` or `blake3`.
    pub verify_by_content: String,
    pub mtime_tolerance_sec: i64,
    pub delete_safety_threshold_pct: u32,
    pub scheduler_running: bool,
    pub notify_pc: bool,
    pub notify_app: bool,
    pub compact_cards: bool,
}

/// Whether settings hold the default values: a pass every 900 s, deletions
/// to the trash, no autostart, deletions confirmed by a preview, the usual
/// ignore patterns, no content check, a 2 s time tolerance, a 50 % deletion
/// threshold, the scheduler running, no notification, compact cards.
pub open spec fn is_default_settings(r: Settings) -> bool {
    &&& r.interval_sec == 900
    &&& r.delete_behavior@ == "trash"@
    &&& !r.autostart
    &&& !r.start_minimized
    &&& r.confirm_deletes_with_dry_run
    &&& r.ignore_patterns@.len() == 5
    &&& r.ignore_patterns@[0]@ == "**/*.tmp"@
    &&& r.ignore_patterns@[1]@ == "**/~$*"@
    &&& r.ignore_patterns@[2]@ == "**/Thumbs.db"@
    &&& r.ignore_patterns@[3]@ == "**/.DS_Store"@
    &&& r.ignore_patterns@[4]@ == "**/.git/**"@
    &&& r.verify_by_content@ == "off"@
    &&& r.mtime_tolerance_sec == 2
    &&& r.delete_safety_threshold_pct == 50
    &&& r.scheduler_running
    &&& !r.notify_pc
    &&& !r.notify_app
    &&& r.compact_cards
}

impl Default for Settings {
    fn default() -> (r: Settings)
        ensures
            is_default_settings(r),
    {
        let mut ignore_patterns: Vec<String> = Vec::new();
        ignore_patterns.push("**/*.tmp".to_string());
        ignore_patterns.push("**/~$*".to_string());
        ignore_patterns.push("**/Thumbs.db".to_string());
        ignore_patterns.push("**/.DS_Store".to_string());
        ignore_patterns.push("**/.git/**".to_string());
        Settings {
            interval_sec: 900,
            delete_behavior: "trash".to_string(),
            autostart: false,
            start_minimized: false,
            confirm_deletes_with_dry_run: true,
            ignore_patterns,
            verify_by_content: "off".to_string(),
            mtime_tolerance_sec: 2,
            delete_safety_threshold_pct: 50,
            scheduler_running: true,
            notify_pc: false,
            notify_app: false,
            compact_cards: true,
        }
    }
}

/// Settings and pairs, as persisted.
pub struct Config {
    pub settings: Settings,
    pub pairs: Vec<SyncPair>,
}

impl Default for Config {
    fn default() -> (r: Config)
        ensures
            r.pairs@.len() == 0,
            is_default_settings(r.settings),
    {
        Config { settings: Settings::default(), pairs: Vec::new() }
    }
}


/// A copy of a list of texts.
pub fn copy_strings(v: &Vec<String>) -> (r: Vec<String>)
    ensures
        r@ == v@,
{
    let mut r: Vec<String> = Vec::new();
    let n = v.len();
    for i in 0..n
        invariant
            n == v@.len(),
            r@ == v@.take(i as int),
    {
        r.push(v[i].clone());
        assert(r@ =~= v@.take(i + 1));
    }
    assert(v@.take(n as int) =~= v@);
    r
}

impl LastRun {
    /// A copy of the record.
    pub fn duplicate(&self) -> (r: LastRun)
        ensures
            r == *self,
    {
        LastRun {
            at: self.at.clone(),
            status: self.status.clone(),
            copied: self.copied,
            updated: self.updated,
            deleted: self.deleted,
            errors: self.errors,
        }
    }
}

impl CompressionConfig {
    /// A copy of the configuration.
    pub fn duplicate(&self) -> (r: CompressionConfig)
        ensures
            r == *self,
    {
        CompressionConfig {
            method: self.method.clone(),
            level: self.level,
            password: match &self.password {
                Some(p) => Some(p.clone()),
                None => None,
            },
            archive_name: self.archive_name.clone(),
        }
    }
}

/// Whether two pairs hold the same values (lists compared by content).
pub open spec fn same_pair(a: SyncPair, b: SyncPair) -> bool {
    &&& a.id == b.id
    &&& a.name == b.name
    &&& a.source == b.source
    &&& a.destination == b.destination
    &&& a.enabled == b.enabled
    &&& a.interval_sec_override == b.interval_sec_override
    &&& a.notify_pc == b.notify_pc
    &&& a.notify_app == b.notify_app
    &&& a.ignore_patterns@ == b.ignore_patterns@
    &&& a.watch_realtime == b.watch_realtime
    &&& a.schedule_times@ == b.schedule_times@
    &&& a.min_file_size == b.min_file_size
    &&& a.max_file_size == b.max_file_size
    &&& a.color == b.color
    &&& a.compression == b.compression
    &&& a.backup_mode == b.backup_mode
    &&& a.last_run == b.last_run
}

impl SyncPair {
    /// A copy of the pair.
    pub fn duplicate(&self) -> (r: SyncPair)
        ensures
            same_pair(r, *self),
    {
        SyncPair {
            id: self.id.clone(),
            name: self.name.clone(),
            source: self.source.clone(),
            destination: self.destination.clone(),
            enabled: self.enabled,
            interval_sec_override: self.interval_sec_override,
            notify_pc: self.notify_pc,
            notify_app: self.notify_app,
            ignore_patterns: copy_strings(&self.ignore_patterns),
            watch_realtime: self.watch_realtime,
            schedule_times: copy_strings(&self.schedule_times),
            min_file_size: self.min_file_size,
            max_file_size: self.max_file_size,
            color: self.color.clone(),
            compression: self.compression.duplicate(),
            backup_mode: self.backup_mode,
            last_run: match &self.last_run {
                Some(l) => Some(l.duplicate()),
                None => None,
            },
        }
    }
}

} // verus!
