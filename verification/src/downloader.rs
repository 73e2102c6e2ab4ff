use vstd::prelude::*;
use crate::text::{
    join, join_with,
    lines, lines_seq, push_all, push_str, starts_with, starts_with_seq, views,
    byte_len, chars_of, contains, contains_seq, copy_range, find, find_seq, is_alphanumeric,
    lead_from, lemma_find_from, lemma_lead_from, matches_at, string_of, trim, trim_seq,
    unicode_alphanumeric, utf8_byte_len, all_ascii, find_from, lemma_trail_from, trail_from,
    trim_start_seq, trim_end_seq, ws, unicode_whitespace, utf8_len, is_ascii_digit_spec,
};

verus! {

/// Audio fetched from a link: where the file was saved, and the title the source gave.
#[derive(Debug, Clone)]
pub struct DownloadedAudio {
    pub path: String,
    pub title: Option<String>,
}

/// A character that may appear in a YouTube or Google Drive file identifier.
pub open spec fn id_char(c: char) -> bool {
    unicode_alphanumeric(c) || c == '_' || c == '-'
}

pub open spec fn id_pred() -> spec_fn(char) -> bool {
    |c: char| id_char(c)
}

/// The run of identifier characters that starts at index `i`.
pub open spec fn id_run(s: Seq<char>, i: int) -> Seq<char> {
    s.subrange(i, i + lead_from(s, id_pred(), i))
}

/// The identifier run right after the first occurrence of `marker`.
pub open spec fn run_after(t: Seq<char>, marker: Seq<char>) -> Option<Seq<char>> {
    match find_seq(t, marker) {
        Some(p) => Some(id_run(t, p + marker.len())),
        None => None,
    }
}

/// A YouTube identifier found after `marker`: exactly 11 bytes long.
pub open spec fn yt_candidate(t: Seq<char>, marker: Seq<char>) -> Option<Seq<char>> {
    match run_after(t, marker) {
        Some(id) => if byte_len(id) == 11 {
            Some(id)
        } else {
            None
        },
        None => None,
    }
}

pub open spec fn all_id_chars(t: Seq<char>) -> bool {
    forall|i: int| 0 <= i < t.len() ==> #[trigger] id_char(t[i])
}

/// The video identifier that a YouTube URL, or a bare 11-byte identifier, names.
pub open spec fn youtube_id_spec(s: Seq<char>) -> Option<Seq<char>> {
    let t = trim_seq(s);
    if t.len() == 0 {
        None
    } else if byte_len(t) == 11 && all_id_chars(t) {
        Some(t)
    } else if yt_candidate(t, "v="@) is Some {
        yt_candidate(t, "v="@)
    } else if yt_candidate(t, "youtu.be/"@) is Some {
        yt_candidate(t, "youtu.be/"@)
    } else if yt_candidate(t, "/embed/"@) is Some {
        yt_candidate(t, "/embed/"@)
    } else {
        yt_candidate(t, "/shorts/"@)
    }
}

/// A Google Drive identifier found after `marker`: more than 10 bytes long.
pub open spec fn gdrive_candidate(t: Seq<char>, marker: Seq<char>) -> Option<Seq<char>> {
    match run_after(t, marker) {
        Some(id) => if byte_len(id) > 10 {
            Some(id)
        } else {
            None
        },
        None => None,
    }
}

/// The file identifier that a Google Drive share link names.
pub open spec fn gdrive_id_spec(s: Seq<char>) -> Option<Seq<char>> {
    let t = trim_seq(s);
    if gdrive_candidate(t, "/file/d/"@) is Some {
        gdrive_candidate(t, "/file/d/"@)
    } else {
        gdrive_candidate(t, "id="@)
    }
}

/// Whether a URL is a Google Drive file share link.
pub open spec fn is_gdrive_spec(s: Seq<char>) -> bool {
    let t = trim_seq(s);
    contains_seq(t, "drive.google.com/file/d/"@) || contains_seq(t, "drive.google.com/open?id="@)
        || (contains_seq(t, "drive.google.com/"@) && contains_seq(t, "/view"@))
}

/// The URL cut before its first `&t=` (or else `?t=`) timestamp parameter.
pub open spec fn strip_timestamp_spec(s: Seq<char>) -> Seq<char> {
    match find_seq(s, "&t="@) {
        Some(p) => s.take(p),
        None => match find_seq(s, "?t="@) {
            Some(p) => s.take(p),
            None => s,
        },
    }
}

pub open spec fn opt_view(r: Option<String>) -> Option<Seq<char>> {
    match r {
        Some(v) => Some(v@),
        None => None,
    }
}

/// The run of identifier characters that starts at index `i`.
fn take_id_run(s: &[char], i: usize) -> (r: Vec<char>)
    requires
        i <= s@.len(),
    ensures
        r@ == id_run(s@, i as int),
{
    let mut k = i;
    while k < s.len() && (is_alphanumeric(s[k]) || s[k] == '_' || s[k] == '-')
        invariant
            i <= k <= s@.len(),
            lead_from(s@, id_pred(), i as int) == (k - i) + lead_from(s@, id_pred(), k as int),
        decreases s@.len() - k,
    {
        k += 1;
    }
    copy_range(s, i, k)
}

fn run_after_exec(t: &[char], marker: &str) -> (r: Option<Vec<char>>)
    ensures
        r matches Some(v) ==> run_after(t@, marker@) == Some(v@),
        r is None ==> run_after(t@, marker@) is None,
{
    let m = chars_of(marker);
    match find(t, &m) {
        Some(p) => {
            proof {
                lemma_find_from(t@, m@, 0);
            }
            Some(take_id_run(t, p + m.len()))
        },
        None => None,
    }
}

fn yt_candidate_exec(t: &[char], marker: &str) -> (r: Option<Vec<char>>)
    ensures
        r matches Some(v) ==> yt_candidate(t@, marker@) == Some(v@),
        r is None ==> yt_candidate(t@, marker@) is None,
{
    match run_after_exec(t, marker) {
        Some(id) => {
            if utf8_byte_len(&id) == 11 {
                Some(id)
            } else {
                None
            }
        },
        None => None,
    }
}

fn gdrive_candidate_exec(t: &[char], marker: &str) -> (r: Option<Vec<char>>)
    ensures
        r matches Some(v) ==> gdrive_candidate(t@, marker@) == Some(v@),
        r is None ==> gdrive_candidate(t@, marker@) is None,
{
    match run_after_exec(t, marker) {
        Some(id) => {
            if utf8_byte_len(&id) > 10 {
                Some(id)
            } else {
                None
            }
        },
        None => None,
    }
}

fn all_id_chars_exec(t: &[char]) -> (r: bool)
    ensures
        r == all_id_chars(t@),
{
    let mut i: usize = 0;
    while i < t.len()
        invariant
            i <= t@.len(),
            forall|j: int| 0 <= j < i ==> #[trigger] id_char(t@[j]),
        decreases t@.len() - i,
    {
        let c = t[i];
        if !(is_alphanumeric(c) || c == '_' || c == '-') {
            assert(!id_char(t@[i as int]));
            return false;
        }
        i += 1;
    }
    true
}

/// Returns true if the given URL is a Google Drive file share link.
///
/// Accepts both `drive.google.com/file/d/<ID>/...` and `drive.google.com/open?id=<ID>` formats.
pub fn is_gdrive_url(url: &str) -> (r: bool)
    ensures
        r == is_gdrive_spec(url@),
{
    let t = trim(&chars_of(url));
    let a = chars_of("drive.google.com/file/d/");
    let b = chars_of("drive.google.com/open?id=");
    let c = chars_of("drive.google.com/");
    let d = chars_of("/view");
    contains(&t, &a) || contains(&t, &b) || (contains(&t, &c) && contains(&t, &d))
}

/// Extract the Google Drive file ID from a share link.
///
/// Handles:
/// - `https://drive.google.com/file/d/<ID>/view?usp=sharing`
/// - `https://drive.google.com/open?id=<ID>`
pub fn extract_gdrive_id(url: &str) -> (r: Option<String>)
    ensures
        opt_view(r) == gdrive_id_spec(url@),
{
    let t = trim(&chars_of(url));
    if let Some(id) = gdrive_candidate_exec(&t, "/file/d/") {
        return Some(string_of(&id));
    }
    match gdrive_candidate_exec(&t, "id=") {
        Some(id) => Some(string_of(&id)),
        None => None,
    }
}

/// Extract a YouTube video ID from various URL formats or a raw 11-char ID.
pub fn extract_youtube_id(url_or_id: &str) -> (r: Option<String>)
    ensures
        opt_view(r) == youtube_id_spec(url_or_id@),
{
    let t = trim(&chars_of(url_or_id));
    if t.len() == 0 {
        return None;
    }
    if utf8_byte_len(&t) == 11 && all_id_chars_exec(&t) {
        return Some(string_of(&t));
    }
    if let Some(id) = yt_candidate_exec(&t, "v=") {
        return Some(string_of(&id));
    }
    if let Some(id) = yt_candidate_exec(&t, "youtu.be/") {
        return Some(string_of(&id));
    }
    if let Some(id) = yt_candidate_exec(&t, "/embed/") {
        return Some(string_of(&id));
    }
    match yt_candidate_exec(&t, "/shorts/") {
        Some(id) => Some(string_of(&id)),
        None => None,
    }
}

/// Strip the `&t=` / `?t=` timestamp fragment from a YouTube URL so yt-dlp
/// does not treat it as a separate stream selector or get confused during retries.
pub fn strip_youtube_timestamp(url: &str) -> (r: String)
    ensures
        r@ == strip_timestamp_spec(url@),
{
    let s = chars_of(url);
    let amp = chars_of("&t=");
    let q = chars_of("?t=");
    match find(&s, &amp) {
        Some(p) => {
            proof {
                lemma_find_from(s@, amp@, 0);
            }
            string_of(&copy_range(&s, 0, p))
        },
        None => match find(&s, &q) {
            Some(p) => {
                proof {
                    lemma_find_from(s@, q@, 0);
                }
                string_of(&copy_range(&s, 0, p))
            },
            None => string_of(&s),
        },
    }
}


/// The first of `ls` from index `i` on that starts with `p`.
pub open spec fn first_with_prefix(ls: Seq<Seq<char>>, p: Seq<char>, i: int) -> Option<Seq<char>>
    decreases ls.len() - i,
{
    if i < 0 || i >= ls.len() {
        None
    } else if starts_with_seq(ls[i], p) {
        Some(ls[i])
    } else {
        first_with_prefix(ls, p, i + 1)
    }
}

pub open spec fn bot_message() -> Seq<char> {
    "YouTube requires bot verification for this video. Place a 'cookies.txt' file in your workspace or set the YT_DLP_COOKIES_PATH environment variable."@
}

pub open spec fn private_message() -> Seq<char> {
    "Sermon download failed: this YouTube video is private."@
}

pub open spec fn unavailable_message() -> Seq<char> {
    "Sermon download failed: this YouTube video is unavailable or deleted."@
}

pub open spec fn members_message() -> Seq<char> {
    "Sermon download failed: this is a members-only video. Export cookies from an account with membership and provide them via the YT_DLP_COOKIES_PATH environment variable."@
}

pub open spec fn age_message() -> Seq<char> {
    "Sermon download failed: the YouTube video is age-restricted. Provide cookies from a logged-in session via YT_DLP_COOKIES_PATH."@
}

/// The message that a failed yt-dlp run reports, from the action and yt-dlp's stderr.
pub open spec fn yt_dlp_error_spec(action: Seq<char>, stderr: Seq<char>) -> Seq<char> {
    let t = trim_seq(stderr);
    if contains_seq(t, "Sign in to confirm you\u{2019}re not a bot"@) || contains_seq(
        t,
        "Sign in to confirm you're not a bot"@,
    ) || contains_seq(t, "bot confirmation"@) {
        bot_message()
    } else if contains_seq(t, "Private video"@) {
        private_message()
    } else if contains_seq(t, "Video unavailable"@) {
        unavailable_message()
    } else if contains_seq(t, "members-only"@) || contains_seq(t, "Join this channel"@) {
        members_message()
    } else if contains_seq(t, "age-restricted"@) || contains_seq(t, "age verification"@) {
        age_message()
    } else {
        match first_with_prefix(lines_seq(t), "ERROR:"@, 0) {
            Some(l) => "yt-dlp failed during "@ + action + ": "@ + trim_seq(l),
            None => "yt-dlp failed during "@ + action + ": "@ + t,
        }
    }
}

fn first_with_prefix_exec(ls: &Vec<Vec<char>>, p: &[char]) -> (r: Option<usize>)
    ensures
        r matches Some(i) ==> i < ls@.len() && first_with_prefix(views(ls@), p@, 0) == Some(
            ls@[i as int]@,
        ),
        r is None ==> first_with_prefix(views(ls@), p@, 0) is None,
{
    let mut i: usize = 0;
    while i < ls.len()
        invariant
            i <= ls@.len(),
            first_with_prefix(views(ls@), p@, 0) == first_with_prefix(views(ls@), p@, i as int),
        decreases ls@.len() - i,
    {
        if starts_with(&ls[i], p) {
            return Some(i);
        }
        i += 1;
    }
    None
}

/// Turns yt-dlp's stderr into a readable error message, recognising the common failure causes.
pub fn format_yt_dlp_error(action: &str, stderr: &str) -> (r: String)
    ensures
        r@ == yt_dlp_error_spec(action@, stderr@),
{
    let t = trim(&chars_of(stderr));
    if contains(&t, &chars_of("Sign in to confirm you\u{2019}re not a bot")) || contains(
        &t,
        &chars_of("Sign in to confirm you're not a bot"),
    ) || contains(&t, &chars_of("bot confirmation")) {
        return "YouTube requires bot verification for this video. Place a 'cookies.txt' file in your workspace or set the YT_DLP_COOKIES_PATH environment variable.".to_string();
    }
    if contains(&t, &chars_of("Private video")) {
        return "Sermon download failed: this YouTube video is private.".to_string();
    }
    if contains(&t, &chars_of("Video unavailable")) {
        return "Sermon download failed: this YouTube video is unavailable or deleted.".to_string();
    }
    if contains(&t, &chars_of("members-only")) || contains(&t, &chars_of("Join this channel")) {
        return "Sermon download failed: this is a members-only video. Export cookies from an account with membership and provide them via the YT_DLP_COOKIES_PATH environment variable.".to_string();
    }
    if contains(&t, &chars_of("age-restricted")) || contains(&t, &chars_of("age verification")) {
        return "Sermon download failed: the YouTube video is age-restricted. Provide cookies from a logged-in session via YT_DLP_COOKIES_PATH.".to_string();
    }
    let ls = lines(&t);
    let mut out: Vec<char> = Vec::new();
    push_str(&mut out, "yt-dlp failed during ");
    push_str(&mut out, action);
    push_str(&mut out, ": ");
    match first_with_prefix_exec(&ls, &chars_of("ERROR:")) {
        Some(i) => {
            let l = trim(&ls[i]);
            push_all(&mut out, &l);
        },
        None => {
            push_all(&mut out, &t);
        },
    }
    string_of(&out)
}

/// The first line of yt-dlp's standard output that is neither empty nor a progress line
/// (trimmed): the title that `--print after_video:title` writes.
pub open spec fn printed_title_spec(stdout: Seq<char>) -> Option<Seq<char>> {
    first_title_from(lines_seq(stdout), 0)
}

pub open spec fn first_title_from(ls: Seq<Seq<char>>, i: int) -> Option<Seq<char>>
    decreases ls.len() - i,
{
    if i < 0 || i >= ls.len() {
        None
    } else {
        let t = trim_seq(ls[i]);
        if t.len() > 0 && !starts_with_seq(t, "["@) {
            Some(t)
        } else {
            first_title_from(ls, i + 1)
        }
    }
}

/// The title that a yt-dlp download printed on its standard output, if any.
pub fn printed_title(stdout: &str) -> (r: Option<String>)
    ensures
        opt_view(r) == printed_title_spec(stdout@),
{
    let ls = lines(&chars_of(stdout));
    let br = chars_of("[");
    let mut i: usize = 0;
    while i < ls.len()
        invariant
            i <= ls@.len(),
            br@ == "["@,
            printed_title_spec(stdout@) == first_title_from(views(ls@), i as int),
        decreases ls@.len() - i,
    {
        let t = trim(&ls[i]);
        if t.len() > 0 && !starts_with(&t, &br) {
            return Some(string_of(&t));
        }
        i += 1;
    }
    None
}

/// The first trimmed line of `--get-url` output that is an http(s) URL, or else the whole
/// output trimmed.
pub open spec fn stream_url_spec(raw: Seq<char>) -> Seq<char> {
    match first_url_from(lines_seq(raw), 0) {
        Some(u) => u,
        None => trim_seq(raw),
    }
}

pub open spec fn first_url_from(ls: Seq<Seq<char>>, i: int) -> Option<Seq<char>>
    decreases ls.len() - i,
{
    if i < 0 || i >= ls.len() {
        None
    } else {
        let t = trim_seq(ls[i]);
        if t.len() > 0 && (starts_with_seq(t, "http://"@) || starts_with_seq(t, "https://"@)) {
            Some(t)
        } else {
            first_url_from(ls, i + 1)
        }
    }
}

/// The direct stream URL in yt-dlp's `--get-url` output; `None` when that is empty.
pub fn stream_url_from_output(raw: &str) -> (r: Option<String>)
    ensures
        r matches Some(u) ==> u@ == stream_url_spec(raw@) && u@.len() > 0,
        r is None <==> stream_url_spec(raw@).len() == 0,
{
    let cs = chars_of(raw);
    let ls = lines(&cs);
    let h1 = chars_of("http://");
    let h2 = chars_of("https://");
    let mut i: usize = 0;
    let mut found: Option<Vec<char>> = None;
    while i < ls.len()
        invariant_except_break
            found is None,
        invariant
            i <= ls@.len(),
            h1@ == "http://"@,
            h2@ == "https://"@,
            cs@ == raw@,
            first_url_from(lines_seq(raw@), 0) == first_url_from(views(ls@), i as int),
            views(ls@) == lines_seq(raw@),
        ensures
            found matches Some(t) ==> first_url_from(lines_seq(raw@), 0) == Some(t@),
            found is None ==> first_url_from(lines_seq(raw@), 0) is None,
        decreases ls@.len() - i,
    {
        let t = trim(&ls[i]);
        if t.len() > 0 && (starts_with(&t, &h1) || starts_with(&t, &h2)) {
            found = Some(t);
            break;
        }
        i += 1;
    }
    let chosen = match found {
        Some(t) => t,
        None => trim(&cs),
    };
    if chosen.len() == 0 {
        None
    } else {
        Some(string_of(&chosen))
    }
}

/// The options every yt-dlp run gets: no playlists, no certificate checks or cache, geo
/// bypass, a line per progress update, a 30 s socket timeout and retries; then the cookies
/// file when one is found, the browser to take cookies from when one is named (trimmed), and
/// Node as the JavaScript runtime when Node is there.
pub open spec fn yt_dlp_args_spec(cookies_path: Option<Seq<char>>, browser: Option<Seq<char>>, has_node: bool) -> Seq<Seq<char>> {
    seq![
        "--no-playlist"@,
        "--no-check-certificates"@,
        "--no-cache-dir"@,
        "--geo-bypass"@,
        "--newline"@,
        "--socket-timeout"@,
        "30"@,
        "--retries"@,
        "5"@,
        "--fragment-retries"@,
        "5"@,
        "--retry-sleep"@,
        "2"@,
    ] + match cookies_path {
        Some(c) => seq!["--cookies"@, c],
        None => seq![],
    } + match browser {
        Some(b) => if trim_seq(b).len() > 0 {
            seq!["--cookies-from-browser"@, trim_seq(b)]
        } else {
            seq![]
        },
        None => seq![],
    } + if has_node {
        seq!["--js-runtimes"@, "node"@]
    } else {
        seq![]
    }
}

pub open spec fn strings_view(v: Seq<String>) -> Seq<Seq<char>> {
    v.map_values(|s: String| s@)
}

fn push_arg(args: &mut Vec<String>, a: &str)
    ensures
        strings_view(final(args)@) == strings_view(old(args)@).push(a@),
{
    args.push(a.to_owned());
    assert(strings_view(args@) =~= strings_view(old(args)@).push(a@));
}

/// The options every yt-dlp run gets; `cookies_path` is a cookies file that exists,
/// `cookies_from_browser` the value of `YT_DLP_COOKIES_FROM_BROWSER`, `has_node` whether Node
/// was found.
pub fn yt_dlp_common_args(cookies_path: Option<String>, cookies_from_browser: Option<String>, has_node: bool) -> (r: Vec<String>)
    ensures
        strings_view(r@) == yt_dlp_args_spec(
            match cookies_path {
                Some(c) => Some(c@),
                None => None,
            },
            match cookies_from_browser {
                Some(b) => Some(b@),
                None => None,
            },
            has_node,
        ),
{
    let mut a: Vec<String> = Vec::new();
    push_arg(&mut a, "--no-playlist");
    push_arg(&mut a, "--no-check-certificates");
    push_arg(&mut a, "--no-cache-dir");
    push_arg(&mut a, "--geo-bypass");
    push_arg(&mut a, "--newline");
    push_arg(&mut a, "--socket-timeout");
    push_arg(&mut a, "30");
    push_arg(&mut a, "--retries");
    push_arg(&mut a, "5");
    push_arg(&mut a, "--fragment-retries");
    push_arg(&mut a, "5");
    push_arg(&mut a, "--retry-sleep");
    push_arg(&mut a, "2");
    let ghost base = strings_view(a@);
    match &cookies_path {
        Some(c) => {
            push_arg(&mut a, "--cookies");
            push_arg(&mut a, c.as_str());
        },
        None => {},
    }
    let ghost with_cookies = strings_view(a@);
    match &cookies_from_browser {
        Some(b) => {
            let t = trim(&chars_of(b.as_str()));
            if t.len() > 0 {
                push_arg(&mut a, "--cookies-from-browser");
                let ts = string_of(&t);
                push_arg(&mut a, ts.as_str());
            }
        },
        None => {},
    }
    let ghost with_browser = strings_view(a@);
    if has_node {
        push_arg(&mut a, "--js-runtimes");
        push_arg(&mut a, "node");
    }
    assert(strings_view(a@) =~= yt_dlp_args_spec(
        match cookies_path {
            Some(c) => Some(c@),
            None => None,
        },
        match cookies_from_browser {
            Some(b) => Some(b@),
            None => None,
        },
        has_node,
    ));
    a
}

/// The lines that hold more than whitespace, in order.
pub open spec fn nonblank_lines(ls: Seq<Seq<char>>) -> Seq<Seq<char>>
    decreases ls.len(),
{
    if ls.len() == 0 {
        seq![]
    } else if trim_seq(ls.last()).len() > 0 {
        nonblank_lines(ls.drop_last()).push(ls.last())
    } else {
        nonblank_lines(ls.drop_last())
    }
}

/// What a yt-dlp run printed on one stream, as it is kept: the non-blank lines joined with
/// line breaks.
pub fn kept_output(lines: &[String]) -> (r: String)
    ensures
        r@ == join_with(nonblank_lines(strings_view(lines@)), seq!['\n']),
{
    let mut kept: Vec<Vec<char>> = Vec::new();
    let mut i: usize = 0;
    while i < lines.len()
        invariant
            i <= lines@.len(),
            views(kept@) == nonblank_lines(strings_view(lines@.take(i as int))),
        decreases lines@.len() - i,
    {
        assert(strings_view(lines@.take(i + 1)).drop_last() =~= strings_view(lines@.take(i as int)));
        assert(strings_view(lines@.take(i + 1)).last() == lines@[i as int]@);
        let l = chars_of(lines[i].as_str());
        if trim(&l).len() > 0 {
            let ghost before = views(kept@);
            kept.push(l);
            assert(views(kept@) =~= before.push(lines@[i as int]@));
        }
        i += 1;
    }
    assert(lines@.take(lines@.len() as int) =~= lines@);
    let nl = ['\n'];
    assert(nl@ =~= seq!['\n']);
    string_of(&join(&kept, &nl))
}

proof fn lemma_run_after(t: Seq<char>, marker: Seq<char>)
    ensures
        run_after(t, marker) matches Some(x) ==> all_id_chars(x) && contains_seq(t, x),
{
    if let Some(p) = find_seq(t, marker) {
        lemma_find_from(t, marker, 0);
        let i = p + marker.len();
        lemma_lead_from(t, id_pred(), i);
        let x = id_run(t, i);
        assert forall|k: int| 0 <= k < x.len() implies #[trigger] id_char(x[k]) by {
            assert(x[k] == t[i + k]);
            assert(id_pred()(t[i + k]));
        }
        assert(matches_at(t, x, i));
        lemma_find_from(t, x, 0);
    }
}

/// Whatever a share link yields is a run of identifier characters, more than 10 bytes long,
/// that occurs in the trimmed link.
pub proof fn lemma_gdrive_id_found_in_link(s: Seq<char>)
    ensures
        gdrive_id_spec(s) matches Some(x) ==> byte_len(x) > 10 && all_id_chars(x) && contains_seq(
            trim_seq(s),
            x,
        ),
{
    lemma_run_after(trim_seq(s), "/file/d/"@);
    lemma_run_after(trim_seq(s), "id="@);
}

/// Whatever a link or bare identifier yields is a run of identifier characters, exactly 11
/// bytes long, that occurs in the trimmed input.
pub proof fn lemma_youtube_id_found_in_input(s: Seq<char>)
    ensures
        youtube_id_spec(s) matches Some(x) ==> byte_len(x) == 11 && all_id_chars(x)
            && contains_seq(trim_seq(s), x),
{
    let t = trim_seq(s);
    lemma_run_after(t, "v="@);
    lemma_run_after(t, "youtu.be/"@);
    lemma_run_after(t, "/embed/"@);
    lemma_run_after(t, "/shorts/"@);
    if t.len() > 0 && byte_len(t) == 11 && all_id_chars(t) {
        assert(matches_at(t, t, 0)) by {
            assert(t.subrange(0, t.len() as int) =~= t);
        }
        lemma_find_from(t, t, 0);
    }
}

/// An identifier written with ASCII letters, digits, `_` and `-` only.
pub open spec fn plain_id(id: Seq<char>) -> bool {
    forall|i: int|
        0 <= i < id.len() ==> ('a' <= #[trigger] id[i] <= 'z' || 'A' <= id[i] <= 'Z' || '0' <= id[i] <= '9'
            || id[i] == '_' || id[i] == '-')
}

proof fn lemma_ascii_cast(c: char)
    requires
        c < '\u{80}',
    ensures
        utf8_len(c) == 1,
{
}

proof fn lemma_byte_len_ascii(s: Seq<char>)
    requires
        all_ascii(s),
    ensures
        byte_len(s) == s.len(),
    decreases s.len(),
{
    if s.len() > 0 {
        assert(all_ascii(s.drop_last())) by {
            assert forall|i: int| 0 <= i < s.drop_last().len() implies #[trigger] s.drop_last()[i]
                < '\u{80}' by {
                assert(s.drop_last()[i] == s[i]);
            }
        }
        lemma_byte_len_ascii(s.drop_last());
        assert(s.last() == s[s.len() - 1]);
        assert(crate::text::is_ascii_char(s[s.len() - 1]));
        lemma_ascii_cast(s.last());
    }
}

proof fn lemma_trim_plain(s: Seq<char>)
    requires
        s.len() > 0,
        !unicode_whitespace(s[0]),
        !unicode_whitespace(s.last()),
    ensures
        trim_seq(s) == s,
{
    assert(lead_from(s, ws(), 0) == 0);
    let a = trim_start_seq(s);
    assert(a =~= s);
    assert(trail_from(a, ws(), a.len() as int) == 0);
    assert(trim_end_seq(a) =~= a);
}

proof fn lemma_find_skip(h: Seq<char>, n: Seq<char>, i: int, k: int)
    requires
        0 <= i <= k,
        forall|j: int| i <= j < k ==> !#[trigger] matches_at(h, n, j),
    ensures
        find_from(h, n, i) == find_from(h, n, k),
    decreases k - i,
{
    if i < k {
        lemma_find_skip(h, n, i + 1, k);
    }
}

proof fn lemma_lead_exact(s: Seq<char>, i: int, l: int)
    requires
        0 <= i,
        0 <= l,
        i + l <= s.len(),
        forall|j: int| i <= j < i + l ==> #[trigger] id_char(s[j]),
        i + l == s.len() || !id_char(s[i + l]),
    ensures
        lead_from(s, id_pred(), i) == l,
    decreases l,
{
    if l > 0 {
        lemma_lead_exact(s, i + 1, l - 1);
        assert(id_char(s[i]));
    }
}

proof fn lemma_plain_id_chars(id: Seq<char>)
    requires
        plain_id(id),
    ensures
        all_id_chars(id),
        all_ascii(id),
        forall|i: int| 0 <= i < id.len() ==> !unicode_whitespace(#[trigger] id[i]) && id[i] != '/'
            && id[i] != '=',
{
    assert forall|i: int| 0 <= i < id.len() implies #[trigger] id_char(id[i]) by {}
    assert forall|i: int| 0 <= i < id.len() implies #[trigger] id[i] < '\u{80}' by {}
}

/// `"/"` is not an identifier character.
proof fn lemma_slash_not_id()
    ensures
        !id_char('/'),
{
}

/// The Drive share links the crate reads give back the file identifier they hold: both
/// `https://drive.google.com/file/d/<id>/view?usp=sharing` and
/// `https://drive.google.com/open?id=<id>`, for an identifier of more than 10 ASCII letters,
/// digits, `_` and `-`.
pub proof fn lemma_gdrive_links(id: Seq<char>)
    requires
        plain_id(id),
        id.len() > 10,
    ensures
        gdrive_id_spec("https://drive.google.com/file/d/"@ + id + "/view?usp=sharing"@) == Some(id),
        gdrive_id_spec("https://drive.google.com/open?id="@ + id) == Some(id),
{
    reveal_strlit("https://drive.google.com/file/d/");
    reveal_strlit("/view?usp=sharing");
    reveal_strlit("https://drive.google.com/open?id=");
    reveal_strlit("/file/d/");
    reveal_strlit("id=");
    lemma_plain_id_chars(id);
    lemma_byte_len_ascii(id);
    let m = "/file/d/"@;
    let e = "id="@;
    // The first form.
    let p = "https://drive.google.com/file/d/"@;
    let q = "/view?usp=sharing"@;
    let h = p + id + q;
    assert(h[0] == 'h' && h.last() == 'g');
    lemma_trim_plain(h);
    assert forall|j: int| 0 <= j < 24 implies !#[trigger] matches_at(h, m, j) by {
        assert(h[j] == p[j] && h[j + 1] == p[j + 1]);
        if matches_at(h, m, j) {
            assert(h.subrange(j, j + 8)[0] == h[j] && h.subrange(j, j + 8)[1] == h[j + 1]);
        }
    }
    lemma_find_skip(h, m, 0, 24);
    assert(h.subrange(24, 32) =~= m);
    assert(find_seq(h, m) == Some(24int));
    assert forall|j: int| 32 <= j < 32 + id.len() implies #[trigger] id_char(h[j]) by {
        assert(h[j] == id[j - 32]);
    }
    assert(h[32 + id.len() as int] == '/');
    lemma_lead_exact(h, 32, id.len() as int);
    assert(id_run(h, 32) =~= id);
    // The second form.
    let p2 = "https://drive.google.com/open?id="@;
    let h2 = p2 + id;
    assert(h2[0] == 'h' && h2.last() == id.last());
    assert(!unicode_whitespace(id[id.len() - 1]));
    lemma_trim_plain(h2);
    assert forall|j: int| 0 <= j < h2.len() implies !#[trigger] matches_at(h2, m, j) by {
        if matches_at(h2, m, j) {
            assert(h2.subrange(j, j + 8)[0] == h2[j] && h2.subrange(j, j + 8)[1] == h2[j + 1]);
            if j < 33 {
                assert(h2[j] == p2[j]);
                if j + 1 < 33 {
                    assert(h2[j + 1] == p2[j + 1]);
                } else {
                    assert(h2[j + 1] == id[j + 1 - 33]);
                }
            } else {
                assert(h2[j] == id[j - 33]);
            }
        }
    }
    lemma_find_from(h2, m, 0);
    assert(find_seq(h2, m) is None);
    assert forall|j: int| 0 <= j < 30 implies !#[trigger] matches_at(h2, e, j) by {
        assert(h2[j] == p2[j] && h2[j + 1] == p2[j + 1]);
        if matches_at(h2, e, j) {
            assert(h2.subrange(j, j + 3)[0] == h2[j] && h2.subrange(j, j + 3)[1] == h2[j + 1]);
        }
    }
    lemma_find_skip(h2, e, 0, 30);
    assert(h2.subrange(30, 33) =~= e);
    assert(find_seq(h2, e) == Some(30int));
    assert forall|j: int| 33 <= j < 33 + id.len() implies #[trigger] id_char(h2[j]) by {
        assert(h2[j] == id[j - 33]);
    }
    lemma_lead_exact(h2, 33, id.len() as int);
    assert(id_run(h2, 33) =~= id);
}

/// The YouTube links the crate reads give back the video identifier they hold: both
/// `https://www.youtube.com/watch?v=<id>` and `https://youtu.be/<id>`, for an identifier of
/// 11 ASCII letters, digits, `_` and `-`.
pub proof fn lemma_youtube_links(v: Seq<char>)
    requires
        plain_id(v),
        v.len() == 11,
    ensures
        youtube_id_spec("https://www.youtube.com/watch?v="@ + v) == Some(v),
        youtube_id_spec("https://youtu.be/"@ + v) == Some(v),
{
    reveal_strlit("https://www.youtube.com/watch?v=");
    reveal_strlit("https://youtu.be/");
    reveal_strlit("v=");
    reveal_strlit("youtu.be/");
    lemma_plain_id_chars(v);
    lemma_byte_len_ascii(v);
    let e = "v="@;
    // The first form.
    let p = "https://www.youtube.com/watch?v="@;
    let h = p + v;
    assert(h[0] == 'h' && h.last() == v[10]);
    lemma_trim_plain(h);
    assert(all_ascii(h)) by {
        assert forall|j: int| 0 <= j < h.len() implies #[trigger] h[j] < '\u{80}' by {
            if j < 32 {
                assert(h[j] == p[j]);
            } else {
                assert(h[j] == v[j - 32]);
            }
        }
    }
    lemma_byte_len_ascii(h);
    assert forall|j: int| 0 <= j < 30 implies !#[trigger] matches_at(h, e, j) by {
        assert(h[j] == p[j]);
        if matches_at(h, e, j) {
            assert(h.subrange(j, j + 2)[0] == h[j]);
        }
    }
    lemma_find_skip(h, e, 0, 30);
    assert(h.subrange(30, 32) =~= e);
    assert(find_seq(h, e) == Some(30int));
    assert forall|j: int| 32 <= j < 43 implies #[trigger] id_char(h[j]) by {
        assert(h[j] == v[j - 32]);
    }
    lemma_lead_exact(h, 32, 11);
    assert(id_run(h, 32) =~= v);
    // The second form.
    let y = "youtu.be/"@;
    let p2 = "https://youtu.be/"@;
    let h2 = p2 + v;
    assert(h2[0] == 'h' && h2.last() == v[10]);
    lemma_trim_plain(h2);
    assert(all_ascii(h2)) by {
        assert forall|j: int| 0 <= j < h2.len() implies #[trigger] h2[j] < '\u{80}' by {
            if j < 17 {
                assert(h2[j] == p2[j]);
            } else {
                assert(h2[j] == v[j - 17]);
            }
        }
    }
    lemma_byte_len_ascii(h2);
    assert forall|j: int| 0 <= j < h2.len() implies !#[trigger] matches_at(h2, e, j) by {
        if matches_at(h2, e, j) {
            assert(h2.subrange(j, j + 2)[0] == h2[j] && h2.subrange(j, j + 2)[1] == h2[j + 1]);
            if j < 17 {
                assert(h2[j] == p2[j]);
            } else {
                assert(h2[j + 1] == v[j + 1 - 17]);
            }
        }
    }
    lemma_find_from(h2, e, 0);
    assert(find_seq(h2, e) is None);
    assert forall|j: int| 0 <= j < 8 implies !#[trigger] matches_at(h2, y, j) by {
        assert(h2[j] == p2[j]);
        if matches_at(h2, y, j) {
            assert(h2.subrange(j, j + 9)[0] == h2[j]);
        }
    }
    lemma_find_skip(h2, y, 0, 8);
    assert(h2.subrange(8, 17) =~= y);
    assert(find_seq(h2, y) == Some(8int));
    assert forall|j: int| 17 <= j < 28 implies #[trigger] id_char(h2[j]) by {
        assert(h2[j] == v[j - 17]);
    }
    lemma_lead_exact(h2, 17, 11);
    assert(id_run(h2, 17) =~= v);
}

} // verus!
