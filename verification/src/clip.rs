use vstd::prelude::*;
use crate::downloader::{extract_youtube_id, strings_view, youtube_id_spec};
use crate::llm::{round_secs, round_secs_exec};
use crate::text::{chars_of, dec, dec_pad, fmt_u64, fmt_u64_pad, push_all, push_str, same_chars, string_of};

verus! {

// ---------------------------------------------------------------------------
// The FFmpeg command that cuts a clip.
// ---------------------------------------------------------------------------

/// A clip that ends before it starts (or where it starts).
#[derive(Debug, Clone, Copy, PartialEq, Eq, Structural)]
pub struct InvalidClipBounds {
    pub start_ms: u64,
    pub end_ms: u64,
}

/// The frame size for an aspect ratio: `1:1` is 1080 square, `16:9` is 1920 by 1080, and
/// anything else is vertical 9:16, 1080 by 1920.
pub open spec fn frame_spec(aspect: Seq<char>) -> (nat, nat) {
    if aspect == "1:1"@ {
        (1080, 1080)
    } else if aspect == "16:9"@ {
        (1920, 1080)
    } else {
        (1080, 1920)
    }
}

/// The frame size for an aspect ratio.
pub fn clip_frame(aspect: &str) -> (r: (u32, u32))
    ensures
        (r.0 as nat, r.1 as nat) == frame_spec(aspect@),
{
    let a = chars_of(aspect);
    if same_chars(&a, &chars_of("1:1")) {
        (1080, 1080)
    } else if same_chars(&a, &chars_of("16:9")) {
        (1920, 1080)
    } else {
        (1080, 1920)
    }
}

/// The size of the waveform on an audio-only clip: 88 % of the width and 22 % of the height,
/// each rounded down to an even number.
pub open spec fn wave_spec(w: nat, h: nat) -> (nat, nat) {
    ((w * 88 / 100) / 2 * 2, (h * 22 / 100) / 2 * 2)
}

/// Every frame a clip is rendered at, and the waveform drawn on an audio-only clip, has an
/// even width and height, as H.264 with 4:2:0 colour needs.
pub proof fn lemma_clip_sizes_even(aspect: Seq<char>)
    ensures
        frame_spec(aspect).0 % 2 == 0,
        frame_spec(aspect).1 % 2 == 0,
        wave_spec(frame_spec(aspect).0, frame_spec(aspect).1).0 % 2 == 0,
        wave_spec(frame_spec(aspect).0, frame_spec(aspect).1).1 % 2 == 0,
{
    let (w, h) = frame_spec(aspect);
    let a = w * 88 / 100 / 2;
    let b = h * 22 / 100 / 2;
    assert((a * 2) % 2 == 0) by (nonlinear_arith);
    assert((b * 2) % 2 == 0) by (nonlinear_arith);
}

/// Seconds with three decimals, for a time in milliseconds.
pub open spec fn secs3(ms: nat) -> Seq<char> {
    dec(ms / 1000) + "."@ + dec_pad(ms % 1000, 3)
}

fn secs3_exec(ms: u64) -> (r: Vec<char>)
    ensures
        r@ == secs3(ms as nat),
{
    let mut v = fmt_u64(ms / 1000);
    push_str(&mut v, ".");
    push_all(&mut v, &fmt_u64_pad(ms % 1000, 3));
    v
}

/// A time in milliseconds as seconds with three decimals, as FFmpeg takes it (`90.250`).
pub fn secs3_text(ms: u64) -> (r: String)
    ensures
        r@ == secs3(ms as nat),
{
    string_of(&secs3_exec(ms))
}

/// The video filter that fits the picture into a `w` by `h` frame: letterboxed for 16:9,
/// else centred over a blurred copy that fills the frame.
pub open spec fn video_filter_spec(wide: bool, w: nat, h: nat) -> Seq<char> {
    let ws = dec(w);
    let hs = dec(h);
    if wide {
        "[0:v]scale="@ + ws + ":"@ + hs + ":force_original_aspect_ratio=decrease:force_divisible_by=2,pad="@
            + ws + ":"@ + hs + ":(ow-iw)/2:(oh-ih)/2:color=black,setsar=1[v]"@
    } else {
        "[0:v]split[fg_in][bg_in];[bg_in]scale="@ + ws + ":"@ + hs
            + ":force_original_aspect_ratio=increase,crop="@ + ws + ":"@ + hs
            + ",boxblur=20:2,setsar=1[bg];[fg_in]scale="@ + ws + ":"@ + hs
            + ":force_original_aspect_ratio=decrease:force_divisible_by=2,setsar=1[fg];[bg][fg]overlay=(W-w)/2:(H-h)/2,setsar=1[v]"@
    }
}

/// The filter that draws an audio-only clip: a dark card of the frame size and length with
/// the waveform centred on it.
pub open spec fn audio_filter_spec(w: nat, h: nat, dur_ms: nat) -> Seq<char> {
    let wave = wave_spec(w, h);
    "color=c=0x080c14:s="@ + dec(w) + "x"@ + dec(h) + ":d="@ + secs3(dur_ms)
        + ":r=30,setsar=1[bg];[0:a]asplit[a_wave][a_out];[a_wave]showwaves=s="@ + dec(wave.0) + "x"@
        + dec(wave.1) + ":mode=cline:colors=0xd4913a:r=30[wave];[bg][wave]overlay=(W-w)/2:(H-h)/2:shortest=1,setsar=1[v]"@
}

/// The arguments FFmpeg is given to cut the clip `start_ms..end_ms` of `input` (the output
/// path follows them): H.264 at quality 22 with the rate capped at 6000 kbit/s, so that
/// clips stay small.
pub open spec fn clip_args_spec(input: Seq<char>, start_ms: nat, end_ms: nat, aspect: Seq<char>, has_video: bool) -> Seq<Seq<char>> {
    let (w, h) = frame_spec(aspect);
    let dur = end_ms - start_ms;
    let head = seq![
        "-y"@,
        "-threads"@,
        "0"@,
        "-ss"@,
        secs3(start_ms),
        "-i"@,
        input,
        "-t"@,
        secs3(dur as nat),
        "-avoid_negative_ts"@,
        "make_zero"@,
    ];
    let codec = seq![
        "-c:v"@,
        "libx264"@,
        "-pix_fmt"@,
        "yuv420p"@,
        "-crf"@,
        "22"@,
        "-maxrate"@,
        "6000k"@,
        "-preset"@,
        "ultrafast"@,
        "-c:a"@,
        "aac"@,
        "-b:a"@,
        "192k"@,
    ];
    if has_video {
        head + seq![
            "-filter_complex"@,
            video_filter_spec(aspect == "16:9"@, w, h),
            "-map"@,
            "[v]"@,
            "-map"@,
            "0:a?"@,
        ] + codec
    } else {
        head + seq!["-filter_complex"@, audio_filter_spec(w, h, dur as nat), "-map"@, "[v]"@, "-map"@, "[a_out]"@]
            + codec + seq!["-shortest"@]
    }
}

fn push_chars(args: &mut Vec<String>, a: &Vec<char>)
    ensures
        strings_view(final(args)@) == strings_view(old(args)@).push(a@),
{
    args.push(string_of(a));
    assert(strings_view(args@) =~= strings_view(old(args)@).push(a@));
}

fn push_lit(args: &mut Vec<String>, a: &str)
    ensures
        strings_view(final(args)@) == strings_view(old(args)@).push(a@),
{
    args.push(a.to_owned());
    assert(strings_view(args@) =~= strings_view(old(args)@).push(a@));
}

fn video_filter(wide: bool, w: u32, h: u32) -> (r: Vec<char>)
    ensures
        r@ == video_filter_spec(wide, w as nat, h as nat),
{
    let ws = fmt_u64(w as u64);
    let hs = fmt_u64(h as u64);
    if wide {
        let mut v = chars_of("[0:v]scale=");
        push_all(&mut v, &ws);
        push_str(&mut v, ":");
        push_all(&mut v, &hs);
        push_str(&mut v, ":force_original_aspect_ratio=decrease:force_divisible_by=2,pad=");
        push_all(&mut v, &ws);
        push_str(&mut v, ":");
        push_all(&mut v, &hs);
        push_str(&mut v, ":(ow-iw)/2:(oh-ih)/2:color=black,setsar=1[v]");
        v
    } else {
        let mut v = chars_of("[0:v]split[fg_in][bg_in];[bg_in]scale=");
        push_all(&mut v, &ws);
        push_str(&mut v, ":");
        push_all(&mut v, &hs);
        push_str(&mut v, ":force_original_aspect_ratio=increase,crop=");
        push_all(&mut v, &ws);
        push_str(&mut v, ":");
        push_all(&mut v, &hs);
        push_str(&mut v, ",boxblur=20:2,setsar=1[bg];[fg_in]scale=");
        push_all(&mut v, &ws);
        push_str(&mut v, ":");
        push_all(&mut v, &hs);
        push_str(
            &mut v,
            ":force_original_aspect_ratio=decrease:force_divisible_by=2,setsar=1[fg];[bg][fg]overlay=(W-w)/2:(H-h)/2,setsar=1[v]",
        );
        v
    }
}

fn audio_filter(w: u32, h: u32, dur_ms: u64) -> (r: Vec<char>)
    ensures
        r@ == audio_filter_spec(w as nat, h as nat, dur_ms as nat),
{
    let ww: u64 = (w as u64 * 88 / 100) / 2 * 2;
    let wh: u64 = (h as u64 * 22 / 100) / 2 * 2;
    let mut v = chars_of("color=c=0x080c14:s=");
    push_all(&mut v, &fmt_u64(w as u64));
    push_str(&mut v, "x");
    push_all(&mut v, &fmt_u64(h as u64));
    push_str(&mut v, ":d=");
    push_all(&mut v, &secs3_exec(dur_ms));
    push_str(&mut v, ":r=30,setsar=1[bg];[0:a]asplit[a_wave][a_out];[a_wave]showwaves=s=");
    push_all(&mut v, &fmt_u64(ww));
    push_str(&mut v, "x");
    push_all(&mut v, &fmt_u64(wh));
    push_str(
        &mut v,
        ":mode=cline:colors=0xd4913a:r=30[wave];[bg][wave]overlay=(W-w)/2:(H-h)/2:shortest=1,setsar=1[v]",
    );
    v
}

/// The arguments FFmpeg is given to cut the clip `start_ms..end_ms` of `input` in the aspect
/// ratio `aspect` (`9:16` unless `1:1` or `16:9`), the output path to follow; a clip that
/// does not end after it starts is refused.
pub fn clip_ffmpeg_args(input: &str, start_ms: u64, end_ms: u64, aspect: &str, has_video: bool) -> (r: Result<
    Vec<String>,
    InvalidClipBounds,
>)
    ensures
        end_ms <= start_ms ==> r == Err::<Vec<String>, InvalidClipBounds>(
            InvalidClipBounds { start_ms, end_ms },
        ),
        start_ms < end_ms ==> (r matches Ok(a) && strings_view(a@) == clip_args_spec(
            input@,
            start_ms as nat,
            end_ms as nat,
            aspect@,
            has_video,
        )),
{
    if end_ms <= start_ms {
        return Err(InvalidClipBounds { start_ms, end_ms });
    }
    let dur = end_ms - start_ms;
    let (w, h) = clip_frame(aspect);
    let mut a: Vec<String> = Vec::new();
    push_lit(&mut a, "-y");
    push_lit(&mut a, "-threads");
    push_lit(&mut a, "0");
    push_lit(&mut a, "-ss");
    push_chars(&mut a, &secs3_exec(start_ms));
    push_lit(&mut a, "-i");
    push_lit(&mut a, input);
    push_lit(&mut a, "-t");
    push_chars(&mut a, &secs3_exec(dur));
    push_lit(&mut a, "-avoid_negative_ts");
    push_lit(&mut a, "make_zero");
    let ghost head = strings_view(a@);
    push_lit(&mut a, "-filter_complex");
    if has_video {
        let wide = same_chars(&chars_of(aspect), &chars_of("16:9"));
        push_chars(&mut a, &video_filter(wide, w, h));
        push_lit(&mut a, "-map");
        push_lit(&mut a, "[v]");
        push_lit(&mut a, "-map");
        push_lit(&mut a, "0:a?");
    } else {
        push_chars(&mut a, &audio_filter(w, h, dur));
        push_lit(&mut a, "-map");
        push_lit(&mut a, "[v]");
        push_lit(&mut a, "-map");
        push_lit(&mut a, "[a_out]");
    }
    let ghost mid = strings_view(a@);
    push_lit(&mut a, "-c:v");
    push_lit(&mut a, "libx264");
    push_lit(&mut a, "-pix_fmt");
    push_lit(&mut a, "yuv420p");
    push_lit(&mut a, "-crf");
    push_lit(&mut a, "22");
    push_lit(&mut a, "-maxrate");
    push_lit(&mut a, "6000k");
    push_lit(&mut a, "-preset");
    push_lit(&mut a, "ultrafast");
    push_lit(&mut a, "-c:a");
    push_lit(&mut a, "aac");
    push_lit(&mut a, "-b:a");
    push_lit(&mut a, "192k");
    if !has_video {
        push_lit(&mut a, "-shortest");
    }
    assert(strings_view(a@) =~= clip_args_spec(input@, start_ms as nat, end_ms as nat, aspect@, has_video));
    Ok(a)
}

/// The name a downloaded YouTube section is saved under: `yt_sec_`, the video's identifier
/// (or `clip`), then the start and end in whole seconds.
pub open spec fn section_name_spec(url: Seq<char>, start_ms: nat, end_ms: nat) -> Seq<char> {
    "yt_sec_"@ + match youtube_id_spec(url) {
        Some(id) => id,
        None => "clip"@,
    } + "_"@ + dec(round_secs(start_ms)) + "_"@ + dec(round_secs(end_ms))
}

/// The yt-dlp options that fetch one section of a video at 720p at most (the common options,
/// the output template and the link follow them).
pub open spec fn section_args_spec(start_ms: nat, end_ms: nat) -> Seq<Seq<char>> {
    seq![
        "--download-sections"@,
        "*"@ + secs3(start_ms) + "-"@ + secs3(end_ms),
        "-f"@,
        "bestvideo[height<=720]+bestaudio/best[height<=720]/best"@,
        "-N"@,
        "4"@,
        "--buffer-size"@,
        "1M"@,
    ]
}

/// The file name and the yt-dlp options for downloading the section `start_ms..end_ms` of a
/// YouTube video; a section that does not end after it starts is refused.
pub fn video_section_plan(url: &str, start_ms: u64, end_ms: u64) -> (r: Result<
    (String, Vec<String>),
    InvalidClipBounds,
>)
    ensures
        end_ms <= start_ms ==> r == Err::<(String, Vec<String>), InvalidClipBounds>(
            InvalidClipBounds { start_ms, end_ms },
        ),
        start_ms < end_ms ==> (r matches Ok(p) && p.0@ == section_name_spec(url@, start_ms as nat, end_ms as nat)
            && strings_view(p.1@) == section_args_spec(start_ms as nat, end_ms as nat)),
{
    if end_ms <= start_ms {
        return Err(InvalidClipBounds { start_ms, end_ms });
    }
    let mut name = chars_of("yt_sec_");
    match extract_youtube_id(url) {
        Some(id) => push_str(&mut name, id.as_str()),
        None => push_str(&mut name, "clip"),
    }
    push_str(&mut name, "_");
    push_all(&mut name, &fmt_u64(round_secs_exec(start_ms)));
    push_str(&mut name, "_");
    push_all(&mut name, &fmt_u64(round_secs_exec(end_ms)));
    let mut range = chars_of("*");
    push_all(&mut range, &secs3_exec(start_ms));
    push_str(&mut range, "-");
    push_all(&mut range, &secs3_exec(end_ms));
    let mut a: Vec<String> = Vec::new();
    push_lit(&mut a, "--download-sections");
    push_chars(&mut a, &range);
    push_lit(&mut a, "-f");
    push_lit(&mut a, "bestvideo[height<=720]+bestaudio/best[height<=720]/best");
    push_lit(&mut a, "-N");
    push_lit(&mut a, "4");
    push_lit(&mut a, "--buffer-size");
    push_lit(&mut a, "1M");
    assert(strings_view(a@) =~= section_args_spec(start_ms as nat, end_ms as nat));
    Ok((string_of(&name), a))
}

} // verus!
