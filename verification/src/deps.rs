use vstd::prelude::*;
use crate::text::{
    chars_of, contains, contains_seq, ends_with, ends_with_seq, lines, lines_seq, push_all,
    push_str, replace, replace_seq, string_of, to_uppercase, trim, trim_seq, uppercase_of, views,
};
use crate::structuring::{split_char, split_char_exec};

verus! {

// ---------------------------------------------------------------------------
// The external tools the app depends on, and the machine it runs on.
// ---------------------------------------------------------------------------

/// Whether one external tool was found, where, and the version it reported.
#[derive(Debug, Clone)]
pub struct BinaryStatus {
    pub found: bool,
    pub path: Option<String>,
    pub version: Option<String>,
}

/// Status of all external tools the app depends on.
#[derive(Debug, Clone)]
pub struct DepsStatus {
    pub ffmpeg: BinaryStatus,
    pub yt_dlp: BinaryStatus,
    pub ffprobe: BinaryStatus,
}

/// Offline tool status summary for the Settings screen.
#[derive(Debug, Clone)]
pub struct OfflineStatus {
    pub ffmpeg_ready: bool,
    pub yt_dlp_ready: bool,
}

/// What the machine offers, for adaptive optimisation.
#[derive(Debug, Clone)]
pub struct HardwareInfo {
    pub ram_gb: u64,
    pub is_low_end: bool,
    pub recommended_ffmpeg_preset: String,
}

/// Which tools are ready, read off a dependency check.
pub fn get_offline_status(status: &DepsStatus) -> (r: OfflineStatus)
    ensures
        r.ffmpeg_ready == status.ffmpeg.found,
        r.yt_dlp_ready == status.yt_dlp.found,
{
    OfflineStatus { ffmpeg_ready: status.ffmpeg.found, yt_dlp_ready: status.yt_dlp.found }
}

/// The environment variable that overrides where a tool lives: the name in upper case with
/// `-` turned into `_`, then `_PATH` (`yt-dlp` gives `YT_DLP_PATH`).
pub open spec fn env_key_spec(name: Seq<char>) -> Seq<char> {
    replace_seq(uppercase_of(name), seq!['-'], seq!['_']) + "_PATH"@
}

/// The environment variable that overrides where the tool `name` lives.
pub fn binary_env_key(name: &str) -> (r: String)
    ensures
        r@ == env_key_spec(name@),
{
    let up = to_uppercase(name);
    let dash = ['-'];
    let under = ['_'];
    assert(dash@ =~= seq!['-']);
    assert(under@ =~= seq!['_']);
    let mut key = replace(&chars_of(up.as_str()), &dash, &under);
    push_str(&mut key, "_PATH");
    string_of(&key)
}

/// The file name of a tool's executable: `.exe` is added on Windows unless it is there.
pub open spec fn exe_name_spec(name: Seq<char>, windows: bool) -> Seq<char> {
    if windows && !ends_with_seq(name, ".exe"@) {
        name + ".exe"@
    } else {
        name
    }
}

/// The file name of the executable of the tool `name`.
pub fn exe_file_name(name: &str, windows: bool) -> (r: String)
    ensures
        r@ == exe_name_spec(name@, windows),
{
    let n = chars_of(name);
    if windows && !ends_with(&n, &chars_of(".exe")) {
        let mut v = n;
        push_str(&mut v, ".exe");
        string_of(&v)
    } else {
        string_of(&n)
    }
}

/// The flag that makes a tool found on the `PATH` print its version: FFmpeg's tools take
/// `-version`, the others `--version`.
pub fn version_flag_for_tool(name: &str) -> (r: &'static str)
    ensures
        r@ == (if contains_seq(name@, "ffmpeg"@) || contains_seq(name@, "ffprobe"@) {
            "-version"@
        } else {
            "--version"@
        }),
{
    let n = chars_of(name);
    if contains(&n, &chars_of("ffmpeg")) || contains(&n, &chars_of("ffprobe")) {
        "-version"
    } else {
        "--version"
    }
}

/// The flag that makes the tool at `path` print its version: `-version` when the path names
/// FFmpeg, else `--version`.
pub fn version_flag_for_path(path: &str) -> (r: &'static str)
    ensures
        r@ == (if contains_seq(path@, "ffmpeg"@) {
            "-version"@
        } else {
            "--version"@
        }),
{
    if contains(&chars_of(path), &chars_of("ffmpeg")) {
        "-version"
    } else {
        "--version"
    }
}

/// The first line that a tool printed, trimmed; `None` when it printed no line.
pub open spec fn first_line_spec(out: Seq<char>) -> Option<Seq<char>> {
    let ls = lines_seq(out);
    if ls.len() > 0 {
        Some(trim_seq(ls[0]))
    } else {
        None
    }
}

/// The first line of what a tool printed, trimmed.
pub fn first_line(out: &str) -> (r: Option<String>)
    ensures
        match r {
            Some(l) => first_line_spec(out@) == Some(l@),
            None => first_line_spec(out@) is None,
        },
{
    let ls = lines(&chars_of(out));
    if ls.len() > 0 {
        assert(views(ls@)[0] == ls@[0]@);
        Some(string_of(&trim(&ls[0])))
    } else {
        None
    }
}

/// A character with ASCII upper case folded to lower case, as a code point.
pub open spec fn ascii_fold(c: char) -> u32 {
    if 'A' <= c && c <= 'Z' {
        (c as u32 + 32) as u32
    } else {
        c as u32
    }
}

/// `str::eq_ignore_ascii_case`: the same length, and the same characters once ASCII letters
/// are folded to lower case.
pub open spec fn eq_ignore_ascii_case_spec(a: Seq<char>, b: Seq<char>) -> bool {
    a.len() == b.len() && forall|i: int| 0 <= i < a.len() ==> ascii_fold(#[trigger] a[i]) == ascii_fold(b[i])
}

fn fold_exec(c: char) -> (r: u32)
    ensures
        r == ascii_fold(c),
{
    if 'A' <= c && c <= 'Z' {
        c as u32 + 32
    } else {
        c as u32
    }
}

/// Compares two strings, ASCII letters without regard to case.
pub fn eq_ignore_ascii_case(a: &[char], b: &[char]) -> (r: bool)
    ensures
        r == eq_ignore_ascii_case_spec(a@, b@),
{
    if a.len() != b.len() {
        return false;
    }
    let mut i: usize = 0;
    while i < a.len()
        invariant
            i <= a@.len(),
            a@.len() == b@.len(),
            forall|k: int| 0 <= k < i ==> ascii_fold(#[trigger] a@[k]) == ascii_fold(b@[k]),
        decreases a@.len() - i,
    {
        if fold_exec(a[i]) != fold_exec(b[i]) {
            return false;
        }
        i += 1;
    }
    true
}

/// The separator of the entries of `PATH`: `;` on Windows, `:` elsewhere.
pub open spec fn path_sep(windows: bool) -> char {
    if windows {
        ';'
    } else {
        ':'
    }
}

/// The new `PATH` that puts `dir` in front, or `None` when an entry of `current` already is
/// `dir` (ASCII letters compared without regard to case).
pub open spec fn path_with_dir_spec(current: Seq<char>, dir: Seq<char>, windows: bool) -> Option<Seq<char>> {
    let parts = split_char(current, path_sep(windows));
    if exists|k: int| 0 <= k < parts.len() && eq_ignore_ascii_case_spec(#[trigger] parts[k], dir) {
        None
    } else {
        Some(dir.push(path_sep(windows)) + current)
    }
}

/// The `PATH` to set so that the tools in `dir` are found first; `None` when it already
/// lists `dir`.
pub fn path_with_dir(current: &str, dir: &str, windows: bool) -> (r: Option<String>)
    ensures
        match r {
            Some(p) => path_with_dir_spec(current@, dir@, windows) == Some(p@),
            None => path_with_dir_spec(current@, dir@, windows) is None,
        },
{
    let sep = if windows {
        ';'
    } else {
        ':'
    };
    let cur = chars_of(current);
    let d = chars_of(dir);
    let parts = split_char_exec(&cur, sep);
    let ghost ps = split_char(current@, path_sep(windows));
    let mut k: usize = 0;
    while k < parts.len()
        invariant
            k <= parts@.len(),
            views(parts@) == ps,
            ps == split_char(current@, path_sep(windows)),
            d@ == dir@,
            forall|j: int| 0 <= j < k ==> !eq_ignore_ascii_case_spec(#[trigger] ps[j], dir@),
        decreases parts@.len() - k,
    {
        assert(ps[k as int] == parts@[k as int]@);
        if eq_ignore_ascii_case(&parts[k], &d) {
            assert(eq_ignore_ascii_case_spec(ps[k as int], dir@));
            return None;
        }
        k += 1;
    }
    let mut out = d;
    out.push(sep);
    push_all(&mut out, &cur);
    Some(string_of(&out))
}

/// The platform the app runs on, as far as downloads depend on it.
#[derive(Debug, Clone, Copy, PartialEq, Eq, Structural)]
pub enum Platform {
    Windows,
    MacOs,
    Other,
}

/// The file name of yt-dlp on a platform and the address it is downloaded from.
pub fn yt_dlp_download(platform: Platform) -> (r: (&'static str, &'static str))
    ensures
        r.0@ == (if platform == Platform::Windows {
            "yt-dlp.exe"@
        } else {
            "yt-dlp"@
        }),
        r.1@ == match platform {
            Platform::Windows => "https://github.com/yt-dlp/yt-dlp/releases/latest/download/yt-dlp.exe"@,
            Platform::MacOs => "https://github.com/yt-dlp/yt-dlp/releases/latest/download/yt-dlp_macos"@,
            Platform::Other => "https://github.com/yt-dlp/yt-dlp/releases/latest/download/yt-dlp"@,
        },
{
    match platform {
        Platform::Windows => (
            "yt-dlp.exe",
            "https://github.com/yt-dlp/yt-dlp/releases/latest/download/yt-dlp.exe",
        ),
        Platform::MacOs => ("yt-dlp", "https://github.com/yt-dlp/yt-dlp/releases/latest/download/yt-dlp_macos"),
        Platform::Other => ("yt-dlp", "https://github.com/yt-dlp/yt-dlp/releases/latest/download/yt-dlp"),
    }
}

/// The file name of FFmpeg on a platform and the archive it is downloaded from.
pub fn ffmpeg_download(platform: Platform) -> (r: (&'static str, &'static str))
    ensures
        r.0@ == (if platform == Platform::Windows {
            "ffmpeg.exe"@
        } else {
            "ffmpeg"@
        }),
        r.1@ == match platform {
            Platform::Windows => "https://github.com/BtbN/FFmpeg-Builds/releases/download/latest/ffmpeg-master-latest-win64-gpl.zip"@,
            Platform::MacOs => "https://evermeet.cx/ffmpeg/getrelease/ffmpeg/zip"@,
            Platform::Other => "https://johnvansickle.com/ffmpeg/releases/ffmpeg-release-amd64-static.tar.xz"@,
        },
{
    match platform {
        Platform::Windows => (
            "ffmpeg.exe",
            "https://github.com/BtbN/FFmpeg-Builds/releases/download/latest/ffmpeg-master-latest-win64-gpl.zip",
        ),
        Platform::MacOs => ("ffmpeg", "https://evermeet.cx/ffmpeg/getrelease/ffmpeg/zip"),
        Platform::Other => (
            "ffmpeg",
            "https://johnvansickle.com/ffmpeg/releases/ffmpeg-release-amd64-static.tar.xz",
        ),
    }
}

// ---------------------------------------------------------------------------
// Memory of the machine, through sysinfo.
// ---------------------------------------------------------------------------

/// `sysinfo::System`, carried through as an opaque handle.
#[verifier::external_type_specification]
#[verifier::external_body]
pub struct ExSystem(sysinfo::System);

/// `sysinfo::Error`, the failure `System::new` may report; carried through opaquely.
#[verifier::external_type_specification]
#[verifier::external_body]
pub struct ExSysinfoError(sysinfo::Error);

/// Calls `sysinfo::System::new`: a handle with nothing loaded yet, or the error the platform
/// gave. Nothing is claimed of either.
#[verifier::external_body]
fn system_new() -> (r: Result<sysinfo::System, sysinfo::Error>) {
    sysinfo::System::new()
}

/// Calls `sysinfo::System::refresh_memory`, which reloads the memory figures of the machine.
/// Nothing is claimed of what it loads.
#[verifier::external_body]
fn refresh_memory(sys: &mut sysinfo::System) {
    sys.refresh_memory()
}

/// Calls `sysinfo::System::total_memory`: the RAM of the machine in bytes, as last loaded.
/// Nothing is claimed of the number, which depends on the machine.
#[verifier::external_body]
fn total_memory(sys: &sysinfo::System) -> (r: u64) {
    sys.total_memory()
}

/// Whole gibibytes in `total_bytes`.
pub fn ram_gb_of(total_bytes: u64) -> (r: u64)
    ensures
        r == total_bytes / 1073741824,
{
    total_bytes / 1073741824
}

/// A machine with at most 4 GiB of RAM counts as low-end.
pub fn is_low_end_for(ram_gb: u64) -> (r: bool)
    ensures
        r == (ram_gb <= 4),
{
    ram_gb <= 4
}

/// The FFmpeg preset for a machine: `ultrafast` on a low-end one, else `veryfast`.
pub fn preset_for(low_end: bool) -> (r: &'static str)
    ensures
        r@ == (if low_end {
            "ultrafast"@
        } else {
            "veryfast"@
        }),
{
    if low_end {
        "ultrafast"
    } else {
        "veryfast"
    }
}

/// The machine's RAM in whole gibibytes (0 when the platform gives no figures).
pub fn available_ram_gb() -> (r: u64)
    ensures
        r <= u64::MAX / 1073741824,
{
    match system_new() {
        Ok(sys) => {
            let mut sys = sys;
            refresh_memory(&mut sys);
            ram_gb_of(total_memory(&sys))
        },
        Err(_) => 0,
    }
}

/// Whether this machine has at most 4 GiB of RAM.
pub fn is_low_end() -> (r: bool) {
    is_low_end_for(available_ram_gb())
}

/// The FFmpeg preset for this machine.
pub fn recommended_ffmpeg_preset() -> (r: &'static str)
    ensures
        r@ == "ultrafast"@ || r@ == "veryfast"@,
{
    preset_for(is_low_end())
}

/// The hardware summary of a machine with `ram_gb` GiB of RAM.
pub fn hardware_info_for(ram_gb: u64) -> (r: HardwareInfo)
    ensures
        r.ram_gb == ram_gb,
        r.is_low_end == (ram_gb <= 4),
        r.recommended_ffmpeg_preset@ == (if ram_gb <= 4 {
            "ultrafast"@
        } else {
            "veryfast"@
        }),
{
    let low = is_low_end_for(ram_gb);
    HardwareInfo {
        ram_gb,
        is_low_end: low,
        recommended_ffmpeg_preset: preset_for(low).to_owned(),
    }
}

/// The hardware summary of this machine; its three figures agree with one another.
pub fn hardware_info() -> (r: HardwareInfo)
    ensures
        r.is_low_end == (r.ram_gb <= 4),
        r.recommended_ffmpeg_preset@ == (if r.is_low_end {
            "ultrafast"@
        } else {
            "veryfast"@
        }),
{
    hardware_info_for(available_ram_gb())
}

} // verus!
