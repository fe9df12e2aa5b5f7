//! Archive formats: which exist, which are built in (ZIP codecs updated
//! incrementally) or need an external tool, their extensions, password
//! support, and the command line of the external tools.
use vstd::prelude::*;
use crate::text::{decimal, decimal_string, push_str, str_equal, trim, trimmed};
use crate::scan::string_views;
pub use crate::config::CompressionConfig;

verus! {

/// A compression method as offered to the user.
pub struct CompressionMethod {
    pub id: String,
    pub name: String,
    pub extension: String,
    pub available: bool,
    pub supports_password: bool,
    pub download_url: String,
    pub default_level: u32,
    pub max_level: u32,
    /// Indicative ratio: Aucune / Faible / Moyenne / Élevée / Très élevée / Ultra / Maximum.
    pub ratio: String,
    /// Built into the application (nothing to install).
    pub builtin: bool,
}

/// Methods that can encrypt the archive with a password: the ZIP codecs
/// (AES-256 of the container), 7-Zip and RAR.
pub open spec fn password_capable(id: Seq<char>) -> bool {
    id == "deflate"@ || id == "bzip2"@ || id == "zstd"@ || id == "7z"@ || id == "rar"@
}

/// Whether a method can encrypt its archive with a password.
pub fn supports_password(id: &str) -> (r: bool)
    ensures
        r == password_capable(id@),
{
    str_equal(id, "deflate") || str_equal(id, "bzip2") || str_equal(id, "zstd") || str_equal(id, "7z")
        || str_equal(id, "rar")
}

/// The codecs built into the ZIP container.
pub open spec fn builtin_method(id: Seq<char>) -> bool {
    id == "deflate"@ || id == "bzip2"@ || id == "zstd"@
}

/// Whether a method is a built-in ZIP codec (updated incrementally).
pub fn is_builtin(method: &str) -> (r: bool)
    ensures
        r == builtin_method(method@),
{
    str_equal(method, "deflate") || str_equal(method, "bzip2") || str_equal(method, "zstd")
}

/// The archive file extension of a method (`.zip` for the ZIP codecs and
/// anything unknown).
pub open spec fn extension_of(method: Seq<char>) -> Seq<char> {
    if method == "zpaq"@ {
        ".zpaq"@
    } else if method == "7z"@ {
        ".7z"@
    } else if method == "rar"@ {
        ".rar"@
    } else if method == "tar.zst"@ {
        ".tar.zst"@
    } else if method == "tar.xz"@ {
        ".tar.xz"@
    } else if method == "tar.gz"@ {
        ".tar.gz"@
    } else if method == "tar.bz2"@ {
        ".tar.bz2"@
    } else if method == "tar.lz4"@ {
        ".tar.lz4"@
    } else {
        ".zip"@
    }
}

/// The archive file extension of a method.
pub fn archive_extension(method: &str) -> (r: &'static str)
    ensures
        r@ == extension_of(method@),
{
    if str_equal(method, "zpaq") {
        ".zpaq"
    } else if str_equal(method, "7z") {
        ".7z"
    } else if str_equal(method, "rar") {
        ".rar"
    } else if str_equal(method, "tar.zst") {
        ".tar.zst"
    } else if str_equal(method, "tar.xz") {
        ".tar.xz"
    } else if str_equal(method, "tar.gz") {
        ".tar.gz"
    } else if str_equal(method, "tar.bz2") {
        ".tar.bz2"
    } else if str_equal(method, "tar.lz4") {
        ".tar.lz4"
    } else {
        ".zip"
    }
}

/// A method description; password support follows the method id.
pub fn method(
    id: &str,
    name: &str,
    ext: &str,
    ratio: &str,
    default_level: u32,
    max_level: u32,
    available: bool,
    builtin: bool,
    url: &str,
) -> (r: CompressionMethod)
    ensures
        r.id@ == id@,
        r.name@ == name@,
        r.extension@ == ext@,
        r.ratio@ == ratio@,
        r.default_level == default_level,
        r.max_level == max_level,
        r.available == available,
        r.builtin == builtin,
        r.download_url@ == url@,
        r.supports_password == password_capable(id@),
{
    CompressionMethod {
        id: id.to_string(),
        name: name.to_string(),
        extension: ext.to_string(),
        available,
        supports_password: supports_password(id),
        download_url: url.to_string(),
        default_level,
        max_level,
        ratio: ratio.to_string(),
        builtin,
    }
}

/// Which external tools were found on this machine.
pub struct ToolAvailability {
    pub zpaq: bool,
    pub seven_zip: bool,
    pub rar: bool,
    pub tar: bool,
}

/// The method ids offered, strongest compression first.
pub open spec fn catalog_ids() -> Seq<Seq<char>> {
    seq![
        "zpaq"@,
        "7z"@,
        "tar.xz"@,
        "rar"@,
        "zstd"@,
        "tar.zst"@,
        "bzip2"@,
        "tar.bz2"@,
        "deflate"@,
        "tar.gz"@,
        "tar.lz4"@,
    ]
}

/// Whether the method at position `k` of the catalog can be used, given the tools found.
pub open spec fn catalog_available(k: int, tools: ToolAvailability) -> bool {
    if k == 0 {
        tools.zpaq
    } else if k == 1 {
        tools.seven_zip
    } else if k == 3 {
        tools.rar
    } else if k == 4 || k == 6 || k == 8 {
        true
    } else {
        tools.tar
    }
}

/// Two texts differ where their characters at `i` differ.
pub proof fn lemma_ne_at(a: Seq<char>, b: Seq<char>, i: int)
    requires
        0 <= i < a.len(),
        i < b.len(),
        a[i] != b[i],
    ensures
        a != b,
{
}

/// Texts of different lengths differ.
pub proof fn lemma_ne_len(a: Seq<char>, b: Seq<char>)
    requires
        a.len() != b.len(),
    ensures
        a != b,
{
}

/// The catalog of methods: the built-in ZIP codecs are always available; the
/// external formats when their tool is found.
pub fn detect_methods(tools: &ToolAvailability) -> (r: Vec<CompressionMethod>)
    ensures
        r@.len() == 11,
        forall|k: int|
            0 <= k < 11 ==> {
                let m = #[trigger] r@[k];
                &&& m.id@ == catalog_ids()[k]
                &&& m.available == catalog_available(k, *tools)
                &&& m.builtin == builtin_method(m.id@)
                &&& m.extension@ == extension_of(m.id@)
                &&& m.supports_password == password_capable(m.id@)
            },
        r@[0].name@ == "zpaq (.zpaq, maximum absolu)"@ && r@[0].ratio@ == "Maximum"@ && r@[0].default_level == 5
            && r@[0].max_level == 5 && r@[0].download_url@ == "http://mattmahoney.net/dc/zpaq.html"@,
        r@[1].name@ == "7-Zip (.7z)"@ && r@[1].ratio@ == "Ultra"@ && r@[1].default_level == 5
            && r@[1].max_level == 9 && r@[1].download_url@ == "https://www.7-zip.org/download.html"@,
        r@[2].name@ == "tar + XZ (.tar.xz)"@ && r@[2].ratio@ == "Ultra"@ && r@[2].default_level == 0
            && r@[2].max_level == 0 && r@[2].download_url@ == "https://tukaani.org/xz/"@,
        r@[3].name@ == "WinRAR (.rar)"@ && r@[3].ratio@ == "Ultra"@ && r@[3].default_level == 3
            && r@[3].max_level == 5 && r@[3].download_url@ == "https://www.win-rar.com/download.html"@,
        r@[4].name@ == "Zstandard (ZIP intégré)"@ && r@[4].ratio@ == "Très élevée"@ && r@[4].default_level
            == 10 && r@[4].max_level == 22 && r@[4].download_url@ == ""@,
        r@[5].name@ == "tar + Zstandard (.tar.zst)"@ && r@[5].ratio@ == "Très élevée"@ && r@[5].default_level
            == 0 && r@[5].max_level == 0 && r@[5].download_url@
            == "https://github.com/facebook/zstd/releases"@,
        r@[6].name@ == "Bzip2 (ZIP intégré)"@ && r@[6].ratio@ == "Élevée"@ && r@[6].default_level == 9
            && r@[6].max_level == 9 && r@[6].download_url@ == ""@,
        r@[7].name@ == "tar + Bzip2 (.tar.bz2)"@ && r@[7].ratio@ == "Élevée"@ && r@[7].default_level == 0
            && r@[7].max_level == 0 && r@[7].download_url@ == "https://www.gnu.org/software/tar/"@,
        r@[8].name@ == "Deflate (ZIP intégré)"@ && r@[8].ratio@ == "Moyenne"@ && r@[8].default_level == 6
            && r@[8].max_level == 9 && r@[8].download_url@ == ""@,
        r@[9].name@ == "tar + Gzip (.tar.gz)"@ && r@[9].ratio@ == "Moyenne"@ && r@[9].default_level == 0
            && r@[9].max_level == 0 && r@[9].download_url@ == "https://www.gnu.org/software/tar/"@,
        r@[10].name@ == "tar + LZ4 (.tar.lz4, rapide)"@ && r@[10].ratio@ == "Faible"@ && r@[10].default_level
            == 0 && r@[10].max_level == 0 && r@[10].download_url@ == "https://github.com/lz4/lz4/releases"@,
{
    let tar = tools.tar;
    let mut r: Vec<CompressionMethod> = Vec::new();
    r.push(method("zpaq", "zpaq (.zpaq, maximum absolu)", ".zpaq", "Maximum", 5, 5, tools.zpaq, false, "http://mattmahoney.net/dc/zpaq.html"));
    r.push(method("7z", "7-Zip (.7z)", ".7z", "Ultra", 5, 9, tools.seven_zip, false, "https://www.7-zip.org/download.html"));
    r.push(method("tar.xz", "tar + XZ (.tar.xz)", ".tar.xz", "Ultra", 0, 0, tar, false, "https://tukaani.org/xz/"));
    r.push(method("rar", "WinRAR (.rar)", ".rar", "Ultra", 3, 5, tools.rar, false, "https://www.win-rar.com/download.html"));
    r.push(method("zstd", "Zstandard (ZIP intégré)", ".zip", "Très élevée", 10, 22, true, true, ""));
    r.push(method("tar.zst", "tar + Zstandard (.tar.zst)", ".tar.zst", "Très élevée", 0, 0, tar, false, "https://github.com/facebook/zstd/releases"));
    r.push(method("bzip2", "Bzip2 (ZIP intégré)", ".zip", "Élevée", 9, 9, true, true, ""));
    r.push(method("tar.bz2", "tar + Bzip2 (.tar.bz2)", ".tar.bz2", "Élevée", 0, 0, tar, false, "https://www.gnu.org/software/tar/"));
    r.push(method("deflate", "Deflate (ZIP intégré)", ".zip", "Moyenne", 6, 9, true, true, ""));
    r.push(method("tar.gz", "tar + Gzip (.tar.gz)", ".tar.gz", "Moyenne", 0, 0, tar, false, "https://www.gnu.org/software/tar/"));
    r.push(method("tar.lz4", "tar + LZ4 (.tar.lz4, rapide)", ".tar.lz4", "Faible", 0, 0, tar, false, "https://github.com/lz4/lz4/releases"));
    proof {
        reveal_strlit("zpaq");
        reveal_strlit("7z");
        reveal_strlit("tar.xz");
        reveal_strlit("rar");
        reveal_strlit("zstd");
        reveal_strlit("tar.zst");
        reveal_strlit("bzip2");
        reveal_strlit("tar.bz2");
        reveal_strlit("deflate");
        reveal_strlit("tar.gz");
        reveal_strlit("tar.lz4");
        lemma_ne_len("zpaq"@, "7z"@);
        lemma_ne_len("zpaq"@, "tar.xz"@);
        lemma_ne_len("zpaq"@, "rar"@);
        lemma_ne_at("zpaq"@, "zstd"@, 1);
        lemma_ne_len("zpaq"@, "tar.zst"@);
        lemma_ne_len("zpaq"@, "bzip2"@);
        lemma_ne_len("zpaq"@, "tar.bz2"@);
        lemma_ne_len("zpaq"@, "deflate"@);
        lemma_ne_len("zpaq"@, "tar.gz"@);
        lemma_ne_len("zpaq"@, "tar.lz4"@);
        lemma_ne_len("7z"@, "tar.xz"@);
        lemma_ne_len("7z"@, "rar"@);
        lemma_ne_len("7z"@, "zstd"@);
        lemma_ne_len("7z"@, "tar.zst"@);
        lemma_ne_len("7z"@, "bzip2"@);
        lemma_ne_len("7z"@, "tar.bz2"@);
        lemma_ne_len("7z"@, "deflate"@);
        lemma_ne_len("7z"@, "tar.gz"@);
        lemma_ne_len("7z"@, "tar.lz4"@);
        lemma_ne_len("tar.xz"@, "rar"@);
        lemma_ne_len("tar.xz"@, "zstd"@);
        lemma_ne_len("tar.xz"@, "tar.zst"@);
        lemma_ne_len("tar.xz"@, "bzip2"@);
        lemma_ne_len("tar.xz"@, "tar.bz2"@);
        lemma_ne_len("tar.xz"@, "deflate"@);
        lemma_ne_at("tar.xz"@, "tar.gz"@, 4);
        lemma_ne_len("tar.xz"@, "tar.lz4"@);
        lemma_ne_len("rar"@, "zstd"@);
        lemma_ne_len("rar"@, "tar.zst"@);
        lemma_ne_len("rar"@, "bzip2"@);
        lemma_ne_len("rar"@, "tar.bz2"@);
        lemma_ne_len("rar"@, "deflate"@);
        lemma_ne_len("rar"@, "tar.gz"@);
        lemma_ne_len("rar"@, "tar.lz4"@);
        lemma_ne_len("zstd"@, "tar.zst"@);
        lemma_ne_len("zstd"@, "bzip2"@);
        lemma_ne_len("zstd"@, "tar.bz2"@);
        lemma_ne_len("zstd"@, "deflate"@);
        lemma_ne_len("zstd"@, "tar.gz"@);
        lemma_ne_len("zstd"@, "tar.lz4"@);
        lemma_ne_len("tar.zst"@, "bzip2"@);
        lemma_ne_at("tar.zst"@, "tar.bz2"@, 4);
        lemma_ne_at("tar.zst"@, "deflate"@, 0);
        lemma_ne_len("tar.zst"@, "tar.gz"@);
        lemma_ne_at("tar.zst"@, "tar.lz4"@, 4);
        lemma_ne_len("bzip2"@, "tar.bz2"@);
        lemma_ne_len("bzip2"@, "deflate"@);
        lemma_ne_len("bzip2"@, "tar.gz"@);
        lemma_ne_len("bzip2"@, "tar.lz4"@);
        lemma_ne_at("tar.bz2"@, "deflate"@, 0);
        lemma_ne_len("tar.bz2"@, "tar.gz"@);
        lemma_ne_at("tar.bz2"@, "tar.lz4"@, 4);
        lemma_ne_len("deflate"@, "tar.gz"@);
        lemma_ne_at("deflate"@, "tar.lz4"@, 0);
        lemma_ne_len("tar.gz"@, "tar.lz4"@);
        assert forall|k: int| 0 <= k < 11 implies {
            let m = #[trigger] r@[k];
            &&& m.id@ == catalog_ids()[k]
            &&& m.available == catalog_available(k, *tools)
            &&& m.builtin == builtin_method(m.id@)
            &&& m.extension@ == extension_of(m.id@)
            &&& m.supports_password == password_capable(m.id@)
        } by {
            if k == 0 {} else if k == 1 {} else if k == 2 {} else if k == 3 {} else if k == 4 {}
            else if k == 5 {} else if k == 6 {} else if k == 7 {} else if k == 8 {} else if k == 9 {}
            else {}
        }
    }
    r
}

} // verus!

verus! {

/// A program and its arguments.
pub struct ExternalCommand {
    pub program: String,
    pub args: Vec<String>,
}

/// `v` clamped to `[lo, hi]`.
pub open spec fn clamp_spec(v: u32, lo: u32, hi: u32) -> u32 {
    if v < lo {
        lo
    } else if v > hi {
        hi
    } else {
        v
    }
}

/// `v` clamped to `[lo, hi]`.
pub fn clamp_level(v: u32, lo: u32, hi: u32) -> (r: u32)
    requires
        lo <= hi,
    ensures
        r == clamp_spec(v, lo, hi),
{
    if v < lo {
        lo
    } else if v > hi {
        hi
    } else {
        v
    }
}

/// The password to use: trimmed, and none when blank.
pub open spec fn effective_password(password: Option<Seq<char>>) -> Option<Seq<char>> {
    match password {
        Some(p) => if trimmed(p).len() > 0 {
            Some(trimmed(p))
        } else {
            None
        },
        None => None,
    }
}

/// The password an archive is encrypted with: the configured one, trimmed;
/// none when absent or blank.
pub fn effective_password_of(password: &Option<String>) -> (r: Option<String>)
    ensures
        crate::outcome::opt_view(r) == effective_password(crate::outcome::opt_view(*password)),
{
    match password {
        Some(p) => {
            let t = trim(p.as_str());
            if t.as_str().is_empty() {
                None
            } else {
                Some(t)
            }
        },
        None => None,
    }
}

/// The command line that builds a whole archive with an external tool:
/// `(program, arguments)`, or `None` for a method that is not external.
/// The source content is named `src\*` for zpaq, 7-Zip and RAR, and the
/// source folder for tar; 7-Zip also encrypts names (`-mhe=on`).
pub open spec fn external_command_spec(
    method: Seq<char>,
    level: u32,
    password: Option<Seq<char>>,
    src: Seq<char>,
    out: Seq<char>,
) -> Option<(Seq<char>, Seq<Seq<char>>)> {
    let glob = src + "\\*"@;
    let pwd = effective_password(password);
    if method == "zpaq"@ {
        Some(("zpaq"@, seq!["a"@, out, glob, "-m"@ + decimal(clamp_spec(level, 1, 5) as nat)]))
    } else if method == "7z"@ {
        let head = seq!["a"@, "-t7z"@, "-mx="@ + decimal(clamp_spec(level, 1, 9) as nat), "-y"@];
        let enc = match pwd {
            Some(p) => seq!["-p"@ + p, "-mhe=on"@],
            None => seq![],
        };
        Some(("7z"@, head + enc + seq![out, glob]))
    } else if method == "rar"@ {
        let head = seq!["a"@, "-r"@, "-ep1"@, "-m"@ + decimal(clamp_spec(level, 0, 5) as nat), "-y"@];
        let enc = match pwd {
            Some(p) => seq!["-hp"@ + p],
            None => seq![],
        };
        Some(("rar"@, head + enc + seq![out, glob]))
    } else if method == "tar.zst"@ {
        Some(("tar"@, seq!["--zstd"@, "-cf"@, out, "-C"@, src, "."@]))
    } else if method == "tar.xz"@ {
        Some(("tar"@, seq!["-cJf"@, out, "-C"@, src, "."@]))
    } else if method == "tar.gz"@ {
        Some(("tar"@, seq!["-czf"@, out, "-C"@, src, "."@]))
    } else if method == "tar.bz2"@ {
        Some(("tar"@, seq!["-cjf"@, out, "-C"@, src, "."@]))
    } else if method == "tar.lz4"@ {
        Some(("tar"@, seq!["--lz4"@, "-cf"@, out, "-C"@, src, "."@]))
    } else {
        None
    }
}

/// The option GNU tar takes to compress with the compressor whose files end
/// in `ext`: the short letters `J` (xz), `z` (gzip) and `j` (bzip2), or the
/// long options for zstd and lz4; none for an extension that is not a
/// compressed tar.
pub open spec fn tar_compressor_option(ext: Seq<char>) -> Option<Seq<char>> {
    if ext == ".tar.xz"@ {
        Some("J"@)
    } else if ext == ".tar.gz"@ {
        Some("z"@)
    } else if ext == ".tar.bz2"@ {
        Some("j"@)
    } else if ext == ".tar.zst"@ {
        Some("--zstd"@)
    } else if ext == ".tar.lz4"@ {
        Some("--lz4"@)
    } else {
        None
    }
}

/// A tar archive is created with the compressor of the format its file is
/// named after: exactly the methods whose extension is a compressed tar run
/// `tar`, creating (`c`) the file `out` (`f`) with the compressor option of
/// that extension (folded into `-c…f` when it is one letter), from the
/// content of `src` (`-C src .`).
pub proof fn lemma_tar_compresses_as_named(method: Seq<char>, level: u32, password: Option<Seq<char>>, src: Seq<char>, out: Seq<char>)
    ensures
        (external_command_spec(method, level, password, src, out) matches Some((prog, _)) && prog == "tar"@)
            <==> tar_compressor_option(extension_of(method)) is Some,
        tar_compressor_option(extension_of(method)) matches Some(opt) ==> external_command_spec(
            method,
            level,
            password,
            src,
            out,
        ) == Some((
            "tar"@,
            if opt.len() == 1 {
                seq!["-c"@ + opt + "f"@, out, "-C"@, src, "."@]
            } else {
                seq![opt, "-cf"@, out, "-C"@, src, "."@]
            },
        )),
{
    reveal_strlit("zpaq");
    reveal_strlit("7z");
    reveal_strlit("rar");
    reveal_strlit("tar");
    reveal_strlit("tar.zst");
    reveal_strlit("tar.xz");
    reveal_strlit("tar.gz");
    reveal_strlit("tar.bz2");
    reveal_strlit("tar.lz4");
    reveal_strlit(".zpaq");
    reveal_strlit(".7z");
    reveal_strlit(".rar");
    reveal_strlit(".zip");
    reveal_strlit(".tar.zst");
    reveal_strlit(".tar.xz");
    reveal_strlit(".tar.gz");
    reveal_strlit(".tar.bz2");
    reveal_strlit(".tar.lz4");
    reveal_strlit("J");
    reveal_strlit("z");
    reveal_strlit("j");
    reveal_strlit("--zstd");
    reveal_strlit("--lz4");
    reveal_strlit("-c");
    reveal_strlit("f");
    reveal_strlit("-cJf");
    reveal_strlit("-czf");
    reveal_strlit("-cjf");
    assert("-c"@ + "J"@ + "f"@ =~= "-cJf"@);
    assert("-c"@ + "z"@ + "f"@ =~= "-czf"@);
    assert("-c"@ + "j"@ + "f"@ =~= "-cjf"@);
    assert("zpaq"@.len() == 4 && "tar"@.len() == 3 && "7z"@.len() == 2);
    assert("zpaq"@ != "tar"@);
    assert("7z"@ != "tar"@);
    assert("rar"@[0] != "tar"@[0]);
    assert("rar"@ != "tar"@);
    assert("--zstd"@.len() != 1);
    assert("--lz4"@.len() != 1);
    assert(".zpaq"@.len() == 5 && ".7z"@.len() == 3 && ".rar"@.len() == 4 && ".zip"@.len() == 4);
    assert(".tar.xz"@.len() == 7 && ".tar.gz"@.len() == 7 && ".tar.bz2"@.len() == 8 && ".tar.zst"@.len() == 8
        && ".tar.lz4"@.len() == 8);
    assert(".tar.bz2"@[5] == 'b' && ".tar.zst"@[5] == 'z' && ".tar.lz4"@[5] == 'l');
    assert(".tar.zst"@ != ".tar.bz2"@ && ".tar.lz4"@ != ".tar.bz2"@ && ".tar.lz4"@ != ".tar.zst"@);
    assert(".tar.xz"@[5] == 'x' && ".tar.gz"@[5] == 'g');
    assert(".tar.gz"@ != ".tar.xz"@);
    if method == "zpaq"@ || method == "7z"@ || method == "rar"@ {
        let e = extension_of(method);
        assert(e == ".zpaq"@ || e == ".7z"@ || e == ".rar"@);
        assert(e.len() < 7);
        assert(e != ".tar.xz"@ && e != ".tar.gz"@ && e != ".tar.bz2"@ && e != ".tar.zst"@ && e != ".tar.lz4"@);
        assert(tar_compressor_option(e) is None);
    } else if method == "tar.zst"@ {
        assert(extension_of(method) == ".tar.zst"@);
        assert(tar_compressor_option(extension_of(method)) == Some("--zstd"@));
    } else if method == "tar.xz"@ {
        assert(extension_of(method) == ".tar.xz"@);
        assert(tar_compressor_option(extension_of(method)) == Some("J"@));
    } else if method == "tar.gz"@ {
        assert(extension_of(method) == ".tar.gz"@);
        assert(tar_compressor_option(extension_of(method)) == Some("z"@));
    } else if method == "tar.bz2"@ {
        assert(extension_of(method) == ".tar.bz2"@);
        assert(tar_compressor_option(extension_of(method)) == Some("j"@));
    } else if method == "tar.lz4"@ {
        assert(extension_of(method) == ".tar.lz4"@);
        assert(tar_compressor_option(extension_of(method)) == Some("--lz4"@));
    } else {
        let e = extension_of(method);
        assert(e == ".zip"@);
        assert(e != ".tar.xz"@ && e != ".tar.gz"@ && e != ".tar.bz2"@ && e != ".tar.zst"@ && e != ".tar.lz4"@);
        assert(tar_compressor_option(e) is None);
        assert(external_command_spec(method, level, password, src, out) is None);
    }
}

/// `prefix` followed by `s`.
fn concat(prefix: &str, s: &str) -> (r: String)
    ensures
        r@ == prefix@ + s@,
{
    let mut r = prefix.to_string();
    push_str(&mut r, s);
    r
}

/// The external command that builds the archive of `src_dir` into `out`
/// (see `external_command_spec`); an unknown method is refused with
/// `format externe inconnu : <method>`.
pub fn build_external(method: &str, level: u32, password: Option<&str>, src_dir: &str, out: &str) -> (r: Result<
    ExternalCommand,
    String,
>)
    ensures
        match external_command_spec(
            method@,
            level,
            match password {
                Some(p) => Some(p@),
                None => None,
            },
            src_dir@,
            out@,
        ) {
            Some((program, args)) => r matches Ok(c) && c.program@ == program && string_views(c.args@)
                == args,
            None => r matches Err(e) && e@ == "format externe inconnu : "@ + method@,
        },
        tar_compressor_option(extension_of(method@)) matches Some(opt) ==> r matches Ok(c) && c.program@ == "tar"@
            && string_views(c.args@) == (if opt.len() == 1 {
            seq!["-c"@ + opt + "f"@, out@, "-C"@, src_dir@, "."@]
        } else {
            seq![opt, "-cf"@, out@, "-C"@, src_dir@, "."@]
        }),
{
    proof {
        lemma_tar_compresses_as_named(
            method@,
            level,
            match password {
                Some(p) => Some(p@),
                None => None,
            },
            src_dir@,
            out@,
        );
    }
    let ghost pw = match password {
        Some(p) => Some(p@),
        None => None::<Seq<char>>,
    };
    let glob = concat(src_dir, "\\*");
    let pwd: Option<String> = match password {
        Some(p) => {
            let t = trim(p);
            if t.as_str().is_empty() {
                None
            } else {
                Some(t)
            }
        },
        None => None,
    };
    assert(match pwd {
        Some(t) => effective_password(pw) == Some(t@),
        None => effective_password(pw) is None,
    });
    let mut args: Vec<String> = Vec::new();
    if str_equal(method, "zpaq") {
        let lv = decimal_string(clamp_level(level, 1, 5) as u64);
        args.push("a".to_string());
        args.push(out.to_string());
        args.push(glob);
        args.push(concat("-m", lv.as_str()));
        let r = ExternalCommand { program: "zpaq".to_string(), args };
        assert(string_views(r.args@) =~= external_command_spec(method@, level, pw, src_dir@, out@).unwrap().1);
        Ok(r)
    } else if str_equal(method, "7z") {
        let lv = decimal_string(clamp_level(level, 1, 9) as u64);
        args.push("a".to_string());
        args.push("-t7z".to_string());
        args.push(concat("-mx=", lv.as_str()));
        args.push("-y".to_string());
        match &pwd {
            Some(p) => {
                args.push(concat("-p", p.as_str()));
                args.push("-mhe=on".to_string());
            },
            None => {},
        }
        args.push(out.to_string());
        args.push(glob);
        let r = ExternalCommand { program: "7z".to_string(), args };
        assert(string_views(r.args@) =~= external_command_spec(method@, level, pw, src_dir@, out@).unwrap().1);
        Ok(r)
    } else if str_equal(method, "rar") {
        let lv = decimal_string(clamp_level(level, 0, 5) as u64);
        args.push("a".to_string());
        args.push("-r".to_string());
        args.push("-ep1".to_string());
        args.push(concat("-m", lv.as_str()));
        args.push("-y".to_string());
        match &pwd {
            Some(p) => {
                args.push(concat("-hp", p.as_str()));
            },
            None => {},
        }
        args.push(out.to_string());
        args.push(glob);
        let r = ExternalCommand { program: "rar".to_string(), args };
        assert(string_views(r.args@) =~= external_command_spec(method@, level, pw, src_dir@, out@).unwrap().1);
        Ok(r)
    } else {
        let flags: Option<(&str, Option<&str>)> = if str_equal(method, "tar.zst") {
            Some(("--zstd", Some("-cf")))
        } else if str_equal(method, "tar.xz") {
            Some(("-cJf", None))
        } else if str_equal(method, "tar.gz") {
            Some(("-czf", None))
        } else if str_equal(method, "tar.bz2") {
            Some(("-cjf", None))
        } else if str_equal(method, "tar.lz4") {
            Some(("--lz4", Some("-cf")))
        } else {
            None
        };
        match flags {
            Some((f1, f2)) => {
                args.push(f1.to_string());
                match f2 {
                    Some(f) => args.push(f.to_string()),
                    None => {},
                }
                args.push(out.to_string());
                args.push("-C".to_string());
                args.push(src_dir.to_string());
                args.push(".".to_string());
                let r = ExternalCommand { program: "tar".to_string(), args };
                assert(string_views(r.args@) =~= external_command_spec(method@, level, pw, src_dir@, out@).unwrap().1);
                Ok(r)
            },
            None => Err(concat("format externe inconnu : ", method)),
        }
    }
}

/// How an external tool run ended.
pub enum ToolRun {
    /// The tool ran; whether it reported success, and what it wrote on stderr.
    Finished { success: bool, stderr: String },
    /// The tool could not be started.
    NotStarted { error: String },
}

/// The result of an external build: success, the tool's trimmed error
/// output prefixed by the method, or the start failure.
pub fn external_result(method: &str, run: ToolRun) -> (r: Result<(), String>)
    ensures
        match run {
            ToolRun::Finished { success: true, .. } => r is Ok,
            ToolRun::Finished { success: false, stderr } => r matches Err(e) && e@ == method@ + " : "@
                + trimmed(stderr@),
            ToolRun::NotStarted { error } => r matches Err(e) && e@ == "outil « "@ + method@
                + " » introuvable : "@ + error@,
        },
{
    match run {
        ToolRun::Finished { success, stderr } => {
            if success {
                Ok(())
            } else {
                let mut m = concat(method, " : ");
                let t = trim(stderr.as_str());
                push_str(&mut m, t.as_str());
                Err(m)
            }
        },
        ToolRun::NotStarted { error } => {
            let mut m = concat("outil « ", method);
            push_str(&mut m, " » introuvable : ");
            push_str(&mut m, error.as_str());
            Err(m)
        },
    }
}

} // verus!
