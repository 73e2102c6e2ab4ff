use vstd::prelude::*;
use crate::downloader::is_gdrive_url;
use crate::models::{Chapter, Highlight};
use crate::text::{
    chars_of, contains, contains_seq, fmt_u64, dec, is_alphanumeric, push_all, push_str, starts_with,
    starts_with_seq, string_of, unicode_alphanumeric,
};

verus! {

// ---------------------------------------------------------------------------
// What the app's commands decide before they do their work.
// ---------------------------------------------------------------------------

/// Where a sermon's audio comes from.
#[derive(Debug, Clone, Copy, PartialEq, Eq, Structural)]
pub enum InputSource {
    YouTube,
    GoogleDrive,
    LocalFile,
}

/// A YouTube link names `youtube.com/` or `youtu.be/`; a Google Drive link is recognised
/// as `is_gdrive_url` does; anything else is a file on disk.
pub open spec fn input_source_spec(input: Seq<char>) -> InputSource {
    if contains_seq(input, "youtube.com/"@) || contains_seq(input, "youtu.be/"@) {
        InputSource::YouTube
    } else if crate::downloader::is_gdrive_spec(input) {
        InputSource::GoogleDrive
    } else {
        InputSource::LocalFile
    }
}

/// Where the audio named by `input` comes from.
pub fn input_source(input: &str) -> (r: InputSource)
    ensures
        r == input_source_spec(input@),
{
    let s = chars_of(input);
    if contains(&s, &chars_of("youtube.com/")) || contains(&s, &chars_of("youtu.be/")) {
        InputSource::YouTube
    } else if is_gdrive_url(input) {
        InputSource::GoogleDrive
    } else {
        InputSource::LocalFile
    }
}

/// The title a new sermon starts with: `Processing…` for a link, else the file's stem, or
/// `Sermon` when the path has none.
pub fn initial_title(input: &str, file_stem: Option<&str>) -> (r: String)
    ensures
        r@ == (if starts_with_seq(input@, "http"@) {
            "Processing…"@
        } else {
            match file_stem {
                Some(s) => s@,
                None => "Sermon"@,
            }
        }),
{
    if starts_with(&chars_of(input), &chars_of("http")) {
        "Processing…".to_owned()
    } else {
        match file_stem {
            Some(s) => s.to_owned(),
            None => "Sermon".to_owned(),
        }
    }
}

/// A title's character as it may stand in a file name: letters, digits and `-` stay,
/// anything else becomes `_`.
pub open spec fn safe_char(c: char) -> char {
    if unicode_alphanumeric(c) || c == '-' {
        c
    } else {
        '_'
    }
}

/// The name of the file a clip is exported to: `dabar_`, the first 50 characters of its
/// title made safe, `.mp4`.
pub open spec fn export_name_spec(title: Seq<char>) -> Seq<char> {
    let n = if title.len() < 50 {
        title.len()
    } else {
        50
    };
    "dabar_"@ + title.take(n as int).map_values(|c: char| safe_char(c)) + ".mp4"@
}

/// The name of the file the clip titled `title` is exported to.
pub fn export_file_name(title: &str) -> (r: String)
    ensures
        r@ == export_name_spec(title@),
{
    let t = chars_of(title);
    let n: usize = if t.len() < 50 {
        t.len()
    } else {
        50
    };
    let mut safe: Vec<char> = Vec::new();
    let mut i: usize = 0;
    while i < n
        invariant
            i <= n <= t@.len(),
            t@ == title@,
            safe@ == t@.take(i as int).map_values(|c: char| safe_char(c)),
        decreases n - i,
    {
        let c = t[i];
        let k = if is_alphanumeric(c) || c == '-' {
            c
        } else {
            '_'
        };
        safe.push(k);
        assert(t@.take(i + 1).map_values(|c: char| safe_char(c)) =~= t@.take(i as int).map_values(
            |c: char| safe_char(c),
        ).push(safe_char(c)));
        i += 1;
    }
    let mut out = chars_of("dabar_");
    push_all(&mut out, &safe);
    push_str(&mut out, ".mp4");
    string_of(&out)
}

/// The file and download address of a Whisper model: `tiny` names the tiny model, anything
/// else the base model.
pub fn whisper_model_file(model: &str) -> (r: (&'static str, &'static str))
    ensures
        model@ == "tiny"@ ==> r.0@ == "ggml-tiny.bin"@ && r.1@
            == "https://huggingface.co/ggerganov/whisper.cpp/resolve/main/ggml-tiny.bin"@,
        model@ != "tiny"@ ==> r.0@ == "ggml-base.bin"@ && r.1@
            == "https://huggingface.co/ggerganov/whisper.cpp/resolve/main/ggml-base.bin"@,
{
    if crate::text::same_chars(&chars_of(model), &chars_of("tiny")) {
        ("ggml-tiny.bin", "https://huggingface.co/ggerganov/whisper.cpp/resolve/main/ggml-tiny.bin")
    } else {
        ("ggml-base.bin", "https://huggingface.co/ggerganov/whisper.cpp/resolve/main/ggml-base.bin")
    }
}

/// The message for a clip number that the sermon does not have.
pub open spec fn clip_not_found_spec(clip: nat, count: nat) -> Seq<char> {
    "Clip "@ + dec(clip) + " not found. This sermon has "@ + dec(count) + " highlights."@
}

/// The index of clip number `clip` (counted from 1) among `count` highlights, or the message
/// saying that there is no such clip.
pub fn pick_clip(clip: usize, count: usize) -> (r: Result<usize, String>)
    ensures
        1 <= clip <= count ==> r == Ok::<usize, String>((clip - 1) as usize),
        !(1 <= clip <= count) ==> (r matches Err(m) && m@ == clip_not_found_spec(clip as nat, count as nat)),
{
    if clip < 1 || clip > count {
        let mut v = chars_of("Clip ");
        push_all(&mut v, &fmt_u64(clip as u64));
        push_str(&mut v, " not found. This sermon has ");
        push_all(&mut v, &fmt_u64(count as u64));
        push_str(&mut v, " highlights.");
        Err(string_of(&v))
    } else {
        Ok(clip - 1)
    }
}

// ---------------------------------------------------------------------------
// Which clip a render request names.
// ---------------------------------------------------------------------------

/// The value of a hexadecimal digit (`0`-`9`, `a`-`f`, `A`-`F`).
pub open spec fn hex_digit(c: char) -> Option<nat> {
    if '0' <= c <= '9' {
        Some((c as nat - '0' as nat) as nat)
    } else if 'a' <= c <= 'f' {
        Some((c as nat - 'a' as nat + 10) as nat)
    } else if 'A' <= c <= 'F' {
        Some((c as nat - 'A' as nat + 10) as nat)
    } else {
        None
    }
}

/// The value of a run of hexadecimal digits, most significant first.
pub open spec fn hex_value(s: Seq<char>) -> Option<nat>
    decreases s.len(),
{
    if s.len() == 0 {
        Some(0)
    } else {
        match (hex_value(s.drop_last()), hex_digit(s.last())) {
            (Some(a), Some(d)) => Some(a * 16 + d),
            _ => None,
        }
    }
}

/// The 32 digits of a hyphenated UUID (groups of 8, 4, 4, 4 and 12 joined by `-`).
pub open spec fn unhyphenated(s: Seq<char>) -> Option<Seq<char>> {
    if s.len() == 36 && s[8] == '-' && s[13] == '-' && s[18] == '-' && s[23] == '-' {
        Some(s.subrange(0, 8) + s.subrange(9, 13) + s.subrange(14, 18) + s.subrange(19, 23)
            + s.subrange(24, 36))
    } else {
        None
    }
}

/// `a` equals the lowercase ASCII text `lower` when ASCII letters are compared without case.
pub open spec fn eq_ignoring_ascii_case(a: Seq<char>, lower: Seq<char>) -> bool {
    a.len() == lower.len() && forall|i: int|
        0 <= i < a.len() ==> (#[trigger] a[i] == lower[i] || ('a' <= lower[i] <= 'z' && a[i] as nat
            + 32 == lower[i] as nat))
}

/// The 32 digits of a UUID written in one of the forms `Uuid::parse_str` reads: 32 digits,
/// hyphenated, hyphenated in braces, or hyphenated after `urn:uuid:` (in any case).
pub open spec fn uuid_digits(s: Seq<char>) -> Option<Seq<char>> {
    if s.len() == 32 {
        Some(s)
    } else if s.len() == 36 {
        unhyphenated(s)
    } else if s.len() == 38 && s[0] == '{' && s[37] == '}' {
        unhyphenated(s.subrange(1, 37))
    } else if s.len() == 45 && eq_ignoring_ascii_case(s.take(9), "urn:uuid:"@) {
        unhyphenated(s.skip(9))
    } else {
        None
    }
}

/// The 128 bits of the UUID a text writes, if it writes one.
pub open spec fn uuid_value(s: Seq<char>) -> Option<u128> {
    match uuid_digits(s) {
        Some(d) => match hex_value(d) {
            Some(v) => Some(v as u128),
            None => None,
        },
        None => None,
    }
}

/// Calls `uuid::Uuid::parse_str` and returns the bits of the UUID read. As the crate's source
/// reads a text, it takes 32 hexadecimal digits, or the hyphenated form alone, in braces or
/// after a `urn:uuid:` prefix in any case; its bytes are the digits' value, most significant
/// first, which `as_u128` returns. Every text it reads is ASCII, so characters and bytes agree.
#[verifier::external_body]
fn parse_uuid(s: &str) -> (r: Option<u128>)
    ensures
        r == uuid_value(s@),
{
    uuid::Uuid::parse_str(s).ok().map(|u| u.as_u128())
}

/// What a render request renders.
#[derive(Debug, Clone)]
pub enum RenderTarget {
    /// The highlight with this id.
    Highlight(u128),
    /// A stretch of the sermon, with the title to give the clip.
    Range { start_ms: u64, end_ms: u64, title: Option<String> },
    /// Nothing that can be rendered.
    Nothing,
}

/// The first chapter with the id, if any.
pub open spec fn chapter_with(chs: Seq<Chapter>, id: u128) -> Option<int> {
    if exists|k: int| 0 <= k < chs.len() && (#[trigger] chs[k]).id == id {
        Some(choose|k: int| 0 <= k < chs.len() && chs[k].id == id && (forall|m: int| 0 <= m < k ==> (#[trigger] chs[m]).id != id))
    } else {
        None
    }
}

/// The target an id names: the highlight with that id, else the chapter with that id
/// (kind 0 is a highlight, 1 a stretch, 2 nothing).
pub open spec fn target_by_id(highlights: Seq<Highlight>, chapters: Seq<Chapter>, id: Option<u128>) -> Option<
    (int, u128, u64, u64, Option<Seq<char>>),
> {
    match id {
        Some(h) => if exists|k: int| 0 <= k < highlights.len() && (#[trigger] highlights[k]).id == h {
            Some((0int, h, 0u64, 0u64, None::<Seq<char>>))
        } else {
            match chapter_with(chapters, h) {
                Some(k) => Some((1int, 0u128, chapters[k].start_ms, chapters[k].end_ms, Some(chapters[k].title@))),
                None => None,
            }
        },
        None => None,
    }
}

/// What a render request renders, given the id it names (already read as a UUID) and the
/// stretch it gives: the highlight with that id; else the chapter with that id; else the
/// stretch; else the sermon's first highlight; else nothing.
pub open spec fn render_target_spec(
    highlights: Seq<Highlight>,
    chapters: Seq<Chapter>,
    id: Option<u128>,
    range: Option<(u64, u64)>,
    clip_title: Option<Seq<char>>,
) -> (int, u128, u64, u64, Option<Seq<char>>) {
    let by_id = target_by_id(highlights, chapters, id);
    match by_id {
        Some(t) => t,
        None => match range {
            Some((s, e)) => (1int, 0u128, s, e, clip_title),
            None => if highlights.len() > 0 {
                (0int, highlights[0].id, 0u64, 0u64, None::<Seq<char>>)
            } else {
                (2int, 0u128, 0u64, 0u64, None::<Seq<char>>)
            },
        },
    }
}

pub open spec fn target_view(t: RenderTarget) -> (int, u128, u64, u64, Option<Seq<char>>) {
    match t {
        RenderTarget::Highlight(h) => (0int, h, 0u64, 0u64, None::<Seq<char>>),
        RenderTarget::Range { start_ms, end_ms, title } => (1int, 0u128, start_ms, end_ms, match title {
            Some(x) => Some(x@),
            None => None,
        }),
        RenderTarget::Nothing => (2int, 0u128, 0u64, 0u64, None::<Seq<char>>),
    }
}

/// What a render request renders, given the id it names as a UUID.
pub fn render_target_for_id(
    highlights: &[Highlight],
    chapters: &[Chapter],
    id: Option<u128>,
    range: Option<(u64, u64)>,
    clip_title: Option<String>,
) -> (r: RenderTarget)
    ensures
        target_view(r) == render_target_spec(highlights@, chapters@, id, range, match clip_title {
            Some(x) => Some(x@),
            None => None,
        }),
{
    if let Some(h) = id {
        let mut k: usize = 0;
        while k < highlights.len()
            invariant
                k <= highlights@.len(),
                id == Some(h),
                forall|m: int| 0 <= m < k ==> (#[trigger] highlights@[m]).id != h,
            decreases highlights@.len() - k,
        {
            if highlights[k].id == h {
                assert(highlights@[k as int].id == h);
                return RenderTarget::Highlight(h);
            }
            k += 1;
        }
        let mut c: usize = 0;
        while c < chapters.len()
            invariant
                c <= chapters@.len(),
                id == Some(h),
                forall|m: int| 0 <= m < highlights@.len() ==> (#[trigger] highlights@[m]).id != h,
                forall|m: int| 0 <= m < c ==> (#[trigger] chapters@[m]).id != h,
            decreases chapters@.len() - c,
        {
            if chapters[c].id == h {
                proof {
                    // The first chapter with this id is the one at `c`: none before it has it.
                    let ci = c as int;
                    assert(chapters@[ci].id == h);
                    let j = chapter_with(chapters@, h).unwrap();
                    assert(chapters@[j].id == h && j == ci);
                }
                return RenderTarget::Range {
                    start_ms: chapters[c].start_ms,
                    end_ms: chapters[c].end_ms,
                    title: Some(chapters[c].title.clone()),
                };
            }
            c += 1;
        }
    }
    match range {
        Some((s, e)) => RenderTarget::Range { start_ms: s, end_ms: e, title: clip_title },
        None => {
            if highlights.len() > 0 {
                RenderTarget::Highlight(highlights[0].id)
            } else {
                RenderTarget::Nothing
            }
        },
    }
}

/// What a render request renders: the highlight id it names (else the clip id) is read as a
/// UUID, then `render_target_for_id` decides.
pub fn render_target(
    highlights: &[Highlight],
    chapters: &[Chapter],
    highlight_id: Option<&str>,
    clip_id: Option<&str>,
    range: Option<(u64, u64)>,
    clip_title: Option<String>,
) -> (r: RenderTarget)
    ensures
        target_view(r) == render_target_spec(
            highlights@,
            chapters@,
            match (if highlight_id is Some { highlight_id } else { clip_id }) {
                Some(s) => uuid_value(s@),
                None => None,
            },
            range,
            match clip_title {
                Some(x) => Some(x@),
                None => None,
            },
        ),
{
    let chosen = if highlight_id.is_some() {
        highlight_id
    } else {
        clip_id
    };
    let id = match chosen {
        Some(s) => parse_uuid(s),
        None => None,
    };
    render_target_for_id(highlights, chapters, id, range, clip_title)
}

} // verus!
