use vstd::prelude::*;
use crate::models::{seg_view, segs_view, TranscriptSegment};
use crate::structuring::{split_char, split_char_exec};
use crate::text::{
    chars_of, copy_range, dec, dec_pad, decimal_milli, find, find_seq, lead_from, lines, lines_seq, parse_decimal_milli, parse_signed_milli, signed_milli, starts_with,
    starts_with_seq, contains, contains_seq, words, words_seq, views, find_from, lemma_find_from, matches_at, replace_from, fmt_u64, fmt_u64_pad, lowercase_of, push_all, push_str, replace,
    replace_seq, string_of, to_lowercase, to_uppercase, trim, trim_seq, uppercase_of, same_chars,
    all_ascii, ascii_upper, lemma_uppercase_ascii, trim_start_seq, trim_end_seq, lemma_lead_from,
    lemma_trail_from, ws,
};

verus! {

// ---------------------------------------------------------------------------
// Subtitle times and filter paths.
// ---------------------------------------------------------------------------

/// `H:MM:SS.cc` for a time in milliseconds, rounded to the nearest hundredth of a second.
pub open spec fn ass_time_spec(ms: nat) -> Seq<char> {
    let cs = (ms + 5) / 10;
    dec(cs / 360000) + ":"@ + dec_pad((cs / 6000) % 60, 2) + ":"@ + dec_pad((cs / 100) % 60, 2)
        + "."@ + dec_pad(cs % 100, 2)
}

/// Formats a time in milliseconds as an ASS timestamp, `H:MM:SS.cc`.
pub fn format_ass_time(ms: u64) -> (r: String)
    ensures
        r@ == ass_time_spec(ms as nat),
{
    let cs: u64 = ms / 10 + if ms % 10 >= 5 {
        1
    } else {
        0
    };
    assert(cs == (ms + 5) / 10);
    let mut out = fmt_u64(cs / 360000);
    push_str(&mut out, ":");
    let m = fmt_u64_pad((cs / 6000) % 60, 2);
    push_all(&mut out, &m);
    push_str(&mut out, ":");
    let s = fmt_u64_pad((cs / 100) % 60, 2);
    push_all(&mut out, &s);
    push_str(&mut out, ".");
    let c = fmt_u64_pad(cs % 100, 2);
    push_all(&mut out, &c);
    string_of(&out)
}

/// A path quoted for an FFmpeg filter option: backslashes turned into slashes, colons
/// escaped, single quotes closed, escaped and reopened, the whole in single quotes.
pub open spec fn escaped_path_spec(path: Seq<char>) -> Seq<char> {
    "'"@ + replace_seq(replace_seq(replace_seq(path, "\\"@, "/"@), ":"@, "\\:"@), "'"@, "'\\''"@)
        + "'"@
}

/// Escapes a path for inclusion in an FFmpeg filter option
/// (e.g. `subtitles='C\:/path/to/file.ass'`).
pub fn escape_ffmpeg_filter_path(path: &str) -> (r: String)
    ensures
        r@ == escaped_path_spec(path@),
{
    proof {
        reveal_strlit("\\");
        reveal_strlit(":");
        reveal_strlit("'");
    }
    let p = chars_of(path);
    let a = replace(&p, &chars_of("\\"), &chars_of("/"));
    let b = replace(&a, &chars_of(":"), &chars_of("\\:"));
    let c = replace(&b, &chars_of("'"), &chars_of("'\\''"));
    let mut out = chars_of("'");
    push_all(&mut out, &c);
    push_str(&mut out, "'");
    string_of(&out)
}

// ---------------------------------------------------------------------------
// Subtitle documents.
// ---------------------------------------------------------------------------

/// The look of the subtitles: font, size, colours, weight, slant, border, outline and shadow
/// widths (as written), bottom margin, and whether the text is upper-cased.
pub struct AssStyle {
    pub font: Seq<char>,
    pub size: nat,
    pub primary: Seq<char>,
    pub outline: Seq<char>,
    pub back: Seq<char>,
    pub bold: nat,
    pub italic: nat,
    pub border: nat,
    pub outline_w: Seq<char>,
    pub shadow_w: Seq<char>,
    pub margin_v: nat,
    pub upper: bool,
}

/// The style preset for a (lowercase) style name: "kinetic" (bold capitals on a black box),
/// "editorial" (cream serif italics), anything else warm amber; sizes and margins grow for
/// frames taller than 1500 pixels.
pub open spec fn style_for(name: Seq<char>, h: nat) -> AssStyle {
    let tall = h > 1500;
    if name == "kinetic"@ {
        AssStyle {
            font: "Arial"@,
            size: if tall { 58 } else { 44 },
            primary: "&H00FFFFFF"@,
            outline: "&H00000000"@,
            back: "&HB0000000"@,
            bold: 1,
            italic: 0,
            border: 3,
            outline_w: "6.0"@,
            shadow_w: "0.0"@,
            margin_v: if tall { 280 } else { 120 },
            upper: true,
        }
    } else if name == "editorial"@ {
        AssStyle {
            font: "Georgia"@,
            size: if tall { 50 } else { 40 },
            primary: "&H00E8F4FD"@,
            outline: "&H00141010"@,
            back: "&H80000000"@,
            bold: 0,
            italic: 1,
            border: 1,
            outline_w: "1.8"@,
            shadow_w: "1.5"@,
            margin_v: if tall { 260 } else { 110 },
            upper: false,
        }
    } else {
        AssStyle {
            font: "Segoe UI"@,
            size: if tall { 54 } else { 42 },
            primary: "&H00FFFFFF"@,
            outline: "&H003A91D4"@,
            back: "&H80000000"@,
            bold: 1,
            italic: 0,
            border: 1,
            outline_w: "3.2"@,
            shadow_w: "2.0"@,
            margin_v: if tall { 260 } else { 110 },
            upper: false,
        }
    }
}

/// Side margins: 8% of the width, at least 20 pixels.
pub open spec fn margin_lr_spec(w: nat) -> nat {
    if w * 8 / 100 >= 20 {
        w * 8 / 100
    } else {
        20
    }
}

/// The script header, the style line and the events header.
pub open spec fn ass_header(w: nat, h: nat, st: AssStyle) -> Seq<char> {
    let m = margin_lr_spec(w);
    "[Script Info]\n"@ + "ScriptType: v4.00+\n"@ + "PlayResX: "@ + dec(w) + "\n"@ + "PlayResY: "@
        + dec(h) + "\n"@ + "WrapStyle: 0\n"@ + "ScaledBorderAndShadow: yes\n\n"@
        + "[V4+ Styles]\n"@
        + "Format: Name, Fontname, Fontsize, PrimaryColour, SecondaryColour, OutlineColour, BackColour, Bold, Italic, Underline, StrikeOut, ScaleX, ScaleY, Spacing, Angle, BorderStyle, Outline, Shadow, Alignment, MarginL, MarginR, MarginV, Encoding\n"@
        + "Style: Default,"@ + st.font + ","@ + dec(st.size) + ","@ + st.primary + ",&H000000FF,"@
        + st.outline + ","@ + st.back + ","@ + dec(st.bold) + ","@ + dec(st.italic)
        + ",0,0,100,100,0,0,"@ + dec(st.border) + ","@ + st.outline_w + ","@ + st.shadow_w + ",2,"@
        + dec(m) + ","@ + dec(m) + ","@ + dec(st.margin_v) + ",1\n\n"@ + "[Events]\n"@
        + "Format: Layer, Start, End, Style, Name, MarginL, MarginR, MarginV, Effect, Text\n"@
}

/// Subtitle text made safe: braces (ASS override tags) become parentheses and line breaks
/// become `\N`.
pub open spec fn sanitize_spec(t: Seq<char>) -> Seq<char> {
    replace_seq(
        replace_seq(replace_seq(replace_seq(t, "{"@, "("@), "}"@, ")"@), "\r\n"@, "\\N"@),
        "\n"@,
        "\\N"@,
    )
}

/// The segment overlaps the part of the timeline the clip shows.
pub open spec fn shows_in_clip(seg: (nat, nat, Seq<char>), offset: int, clip_dur: int) -> bool {
    seg.1 > offset && seg.0 < offset + clip_dur
}

/// Where a segment's cue starts in the clip: at the segment's start on the timeline, moved
/// to the clip's start, and no earlier than the clip.
pub open spec fn cue_start(seg: (nat, nat, Seq<char>), clip_start: int, offset: int) -> int {
    let a = seg.0 - offset;
    (if a > 0 { a } else { 0 }) + clip_start
}

/// Where a segment's cue ends in the clip: at the segment's end, and no later than the clip.
pub open spec fn cue_end(seg: (nat, nat, Seq<char>), clip_start: int, clip_dur: int, offset: int) -> int {
    let b = seg.1 - offset;
    (if b < clip_dur { b } else { clip_dur }) + clip_start
}

/// The dialogue line of one segment, or nothing when it is shorter than 50 ms inside the clip
/// or has no text.
pub open spec fn dialogue_line(
    seg: (nat, nat, Seq<char>),
    clip_start: int,
    clip_dur: int,
    offset: int,
    upper: bool,
) -> Seq<char> {
    let rs = cue_start(seg, clip_start, offset);
    let re = cue_end(seg, clip_start, clip_dur, offset);
    let t = sanitize_spec(trim_seq(seg.2));
    if re <= rs || re - rs < 50 || t.len() == 0 {
        seq![]
    } else {
        "Dialogue: 0,"@ + ass_time_spec(rs as nat) + ","@ + ass_time_spec(re as nat)
            + ",Default,,0,0,0,,"@ + (if upper {
            uppercase_of(t)
        } else {
            t
        }) + "\n"@
    }
}

/// The dialogue lines of the segments that show in the clip, in order.
pub open spec fn dialogue_lines(
    segs: Seq<(nat, nat, Seq<char>)>,
    clip_start: int,
    clip_dur: int,
    offset: int,
    upper: bool,
) -> Seq<char>
    decreases segs.len(),
{
    if segs.len() == 0 {
        seq![]
    } else {
        dialogue_lines(segs.drop_last(), clip_start, clip_dur, offset, upper) + if shows_in_clip(
            segs.last(),
            offset,
            clip_dur,
        ) {
            dialogue_line(segs.last(), clip_start, clip_dur, offset, upper)
        } else {
            seq![]
        }
    }
}

/// Some segment shows in the clip.
pub open spec fn any_shows(segs: Seq<(nat, nat, Seq<char>)>, offset: int, clip_dur: int) -> bool {
    exists|k: int| 0 <= k < segs.len() && shows_in_clip(#[trigger] segs[k], offset, clip_dur)
}

/// The subtitle document of a clip, if any segment shows in it.
pub open spec fn ass_spec(
    segs: Seq<(nat, nat, Seq<char>)>,
    clip_start: nat,
    clip_end: nat,
    offset: nat,
    w: nat,
    h: nat,
    style_name: Seq<char>,
) -> Option<Seq<char>> {
    let dur = clip_end - clip_start;
    if !any_shows(segs, offset as int, dur) {
        None
    } else {
        let st = style_for(lowercase_of(style_name), h);
        Some(ass_header(w, h, st) + dialogue_lines(segs, clip_start as int, dur, offset as int, st.upper))
    }
}

fn style_exec(name: &Vec<char>, h: u32) -> (r: (
    &'static str,
    u64,
    &'static str,
    &'static str,
    &'static str,
    u64,
    u64,
    u64,
    &'static str,
    &'static str,
    u64,
    bool,
))
    ensures
        ({
            let st = style_for(name@, h as nat);
            &&& r.0@ == st.font
            &&& r.1 as nat == st.size
            &&& r.2@ == st.primary
            &&& r.3@ == st.outline
            &&& r.4@ == st.back
            &&& r.5 as nat == st.bold
            &&& r.6 as nat == st.italic
            &&& r.7 as nat == st.border
            &&& r.8@ == st.outline_w
            &&& r.9@ == st.shadow_w
            &&& r.10 as nat == st.margin_v
            &&& r.11 == st.upper
        }),
{
    let tall = h > 1500;
    if same_chars(name, &chars_of("kinetic")) {
        (
            "Arial",
            if tall { 58 } else { 44 },
            "&H00FFFFFF",
            "&H00000000",
            "&HB0000000",
            1,
            0,
            3,
            "6.0",
            "0.0",
            if tall { 280 } else { 120 },
            true,
        )
    } else if same_chars(name, &chars_of("editorial")) {
        (
            "Georgia",
            if tall { 50 } else { 40 },
            "&H00E8F4FD",
            "&H00141010",
            "&H80000000",
            0,
            1,
            1,
            "1.8",
            "1.5",
            if tall { 260 } else { 110 },
            false,
        )
    } else {
        (
            "Segoe UI",
            if tall { 54 } else { 42 },
            "&H00FFFFFF",
            "&H003A91D4",
            "&H80000000",
            1,
            0,
            1,
            "3.2",
            "2.0",
            if tall { 260 } else { 110 },
            false,
        )
    }
}

fn sanitize_exec(t: &Vec<char>) -> (r: Vec<char>)
    ensures
        r@ == sanitize_spec(t@),
{
    proof {
        reveal_strlit("{");
        reveal_strlit("}");
        reveal_strlit("\r\n");
        reveal_strlit("\n");
    }
    let a = replace(t, &chars_of("{"), &chars_of("("));
    let b = replace(&a, &chars_of("}"), &chars_of(")"));
    let c = replace(&b, &chars_of("\r\n"), &chars_of("\\N"));
    replace(&c, &chars_of("\n"), &chars_of("\\N"))
}

fn dialogue_line_exec(
    seg: &TranscriptSegment,
    clip_start: u64,
    clip_dur: i128,
    offset: u64,
    upper: bool,
) -> (r: Vec<char>)
    requires
        -0x1_0000_0000_0000_0000 <= clip_dur <= 0x1_0000_0000_0000_0000,
    ensures
        r@ == dialogue_line(seg_view(*seg), clip_start as int, clip_dur as int, offset as int, upper),
{
    let a: i128 = seg.start_ms as i128 - offset as i128;
    let b: i128 = seg.end_ms as i128 - offset as i128;
    let rs: i128 = (if a > 0 { a } else { 0 }) + clip_start as i128;
    let re: i128 = (if b < clip_dur { b } else { clip_dur }) + clip_start as i128;
    let t = sanitize_exec(&trim(&chars_of(seg.text.as_str())));
    if re <= rs || re - rs < 50 || t.len() == 0 {
        return Vec::new();
    }
    assert(0 <= rs < re);
    assert(re <= 0x2_0000_0000_0000_0000);
    let mut out = chars_of("Dialogue: 0,");
    let ts = format_ass_time_wide(rs as u128);
    push_all(&mut out, &ts);
    push_str(&mut out, ",");
    let te = format_ass_time_wide(re as u128);
    push_all(&mut out, &te);
    push_str(&mut out, ",Default,,0,0,0,,");
    if upper {
        let u = chars_of(&to_uppercase(&string_of(&t)));
        push_all(&mut out, &u);
    } else {
        push_all(&mut out, &t);
    }
    push_str(&mut out, "\n");
    out
}

/// `fmt_u64` for values that may exceed `u64`, in the time format.
fn format_ass_time_wide(ms: u128) -> (r: Vec<char>)
    requires
        ms <= 0x2_0000_0000_0000_0000,
    ensures
        r@ == ass_time_spec(ms as nat),
{
    let cs: u128 = ms / 10 + if ms % 10 >= 5 {
        1
    } else {
        0
    };
    assert(cs == (ms + 5) / 10);
    let hours = cs / 360000;
    assert(hours <= u64::MAX);
    let mut out = fmt_u64(hours as u64);
    push_str(&mut out, ":");
    let m = fmt_u64_pad(((cs / 6000) % 60) as u64, 2);
    push_all(&mut out, &m);
    push_str(&mut out, ":");
    let s = fmt_u64_pad(((cs / 100) % 60) as u64, 2);
    push_all(&mut out, &s);
    push_str(&mut out, ".");
    let c = fmt_u64_pad((cs % 100) as u64, 2);
    push_all(&mut out, &c);
    out
}

/// Generates timed ASS subtitles for the transcript segments that overlap a clip. The clip
/// runs from `clip_start_ms` to `clip_end_ms` of its video and shows the transcript from
/// `timeline_offset_ms` on. Style presets: "amber" (warm amber with a gold glow, the
/// default), "kinetic" (bold capitals on a black box) and "editorial" (sacred serif).
pub fn generate_ass_subtitles(
    segments: &[TranscriptSegment],
    clip_start_ms: u64,
    clip_end_ms: u64,
    timeline_offset_ms: u64,
    target_w: u32,
    target_h: u32,
    style_name: &str,
) -> (r: Option<String>)
    ensures
        match r {
            Some(s) => ass_spec(
                segs_view(segments@),
                clip_start_ms as nat,
                clip_end_ms as nat,
                timeline_offset_ms as nat,
                target_w as nat,
                target_h as nat,
                style_name@,
            ) == Some(s@),
            None => ass_spec(
                segs_view(segments@),
                clip_start_ms as nat,
                clip_end_ms as nat,
                timeline_offset_ms as nat,
                target_w as nat,
                target_h as nat,
                style_name@,
            ) is None,
        },
{
    let ghost sv = segs_view(segments@);
    let dur: i128 = clip_end_ms as i128 - clip_start_ms as i128;
    let tl_end: i128 = timeline_offset_ms as i128 + dur;
    let mut any = false;
    let mut k: usize = 0;
    while k < segments.len()
        invariant
            k <= segments@.len(),
            sv == segs_view(segments@),
            tl_end == timeline_offset_ms + dur,
            any == (exists|j: int| 0 <= j < k && shows_in_clip(#[trigger] sv[j], timeline_offset_ms as int, dur as int)),
        decreases segments@.len() - k,
    {
        assert(sv[k as int] == seg_view(segments@[k as int]));
        if segments[k].end_ms as i128 > timeline_offset_ms as i128 && (segments[k].start_ms as i128) < tl_end {
            any = true;
        }
        k += 1;
    }
    if !any {
        return None;
    }
    let name = chars_of(&to_lowercase(style_name));
    let (font, size, primary, outline, back, bold, italic, border, outline_w, shadow_w, margin_v, upper) =
        style_exec(&name, target_h);
    let w = target_w as u64;
    let margin = if w * 8 / 100 >= 20 {
        w * 8 / 100
    } else {
        20
    };
    let mut ass: Vec<char> = Vec::new();
    push_str(&mut ass, "[Script Info]\n");
    push_str(&mut ass, "ScriptType: v4.00+\n");
    push_str(&mut ass, "PlayResX: ");
    push_all(&mut ass, &fmt_u64(w));
    push_str(&mut ass, "\n");
    push_str(&mut ass, "PlayResY: ");
    push_all(&mut ass, &fmt_u64(target_h as u64));
    push_str(&mut ass, "\n");
    push_str(&mut ass, "WrapStyle: 0\n");
    push_str(&mut ass, "ScaledBorderAndShadow: yes\n\n");
    push_str(&mut ass, "[V4+ Styles]\n");
    push_str(
        &mut ass,
        "Format: Name, Fontname, Fontsize, PrimaryColour, SecondaryColour, OutlineColour, BackColour, Bold, Italic, Underline, StrikeOut, ScaleX, ScaleY, Spacing, Angle, BorderStyle, Outline, Shadow, Alignment, MarginL, MarginR, MarginV, Encoding\n",
    );
    push_str(&mut ass, "Style: Default,");
    push_str(&mut ass, font);
    push_str(&mut ass, ",");
    push_all(&mut ass, &fmt_u64(size));
    push_str(&mut ass, ",");
    push_str(&mut ass, primary);
    push_str(&mut ass, ",&H000000FF,");
    push_str(&mut ass, outline);
    push_str(&mut ass, ",");
    push_str(&mut ass, back);
    push_str(&mut ass, ",");
    push_all(&mut ass, &fmt_u64(bold));
    push_str(&mut ass, ",");
    push_all(&mut ass, &fmt_u64(italic));
    push_str(&mut ass, ",0,0,100,100,0,0,");
    push_all(&mut ass, &fmt_u64(border));
    push_str(&mut ass, ",");
    push_str(&mut ass, outline_w);
    push_str(&mut ass, ",");
    push_str(&mut ass, shadow_w);
    push_str(&mut ass, ",2,");
    push_all(&mut ass, &fmt_u64(margin));
    push_str(&mut ass, ",");
    push_all(&mut ass, &fmt_u64(margin));
    push_str(&mut ass, ",");
    push_all(&mut ass, &fmt_u64(margin_v));
    push_str(&mut ass, ",1\n\n");
    push_str(&mut ass, "[Events]\n");
    push_str(
        &mut ass,
        "Format: Layer, Start, End, Style, Name, MarginL, MarginR, MarginV, Effect, Text\n",
    );
    let ghost st = style_for(name@, target_h as nat);
    assert(ass@ =~= ass_header(target_w as nat, target_h as nat, st));
    let ghost head = ass@;
    let mut i: usize = 0;
    while i < segments.len()
        invariant
            i <= segments@.len(),
            sv == segs_view(segments@),
            st == style_for(name@, target_h as nat),
            upper == st.upper,
            tl_end == timeline_offset_ms + dur,
            dur == clip_end_ms - clip_start_ms,
            ass@ == head + dialogue_lines(sv.take(i as int), clip_start_ms as int, dur as int, timeline_offset_ms as int, upper),
        decreases segments@.len() - i,
    {
        assert(sv.take(i + 1).drop_last() =~= sv.take(i as int));
        assert(sv.take(i + 1).last() == seg_view(segments@[i as int]));
        let ghost before = ass@;
        if segments[i].end_ms as i128 > timeline_offset_ms as i128 && (segments[i].start_ms as i128) < tl_end {
            let line = dialogue_line_exec(&segments[i], clip_start_ms, dur, timeline_offset_ms, upper);
            push_all(&mut ass, &line);
        }
        assert(ass@ =~= head + dialogue_lines(sv.take(i + 1), clip_start_ms as int, dur as int, timeline_offset_ms as int, upper));
        i += 1;
    }
    assert(sv.take(segments@.len() as int) =~= sv);
    Some(string_of(&ass))
}


// ---------------------------------------------------------------------------
// Subtitle text never carries override tags.
// ---------------------------------------------------------------------------

proof fn lemma_replace_removes(s: Seq<char>, c: char, r: Seq<char>, i: int)
    requires
        !r.contains(c),
        0 <= i <= s.len(),
    ensures
        !replace_from(s, seq![c], r, i).contains(c),
    decreases s.len() + 1 - i,
{
    let p = seq![c];
    if i <= s.len() {
        lemma_find_from(s, p, i);
        match find_from(s, p, i) {
            None => {
                let t = s.subrange(i, s.len() as int);
                assert forall|j: int| 0 <= j < t.len() implies t[j] != c by {
                    if t[j] == c {
                        assert(s.subrange(i + j, i + j + 1) =~= p);
                        assert(matches_at(s, p, i + j));
                    }
                }
            },
            Some(k) => {
                lemma_replace_removes(s, c, r, k + 1);
                let t = s.subrange(i, k);
                assert forall|j: int| 0 <= j < t.len() implies t[j] != c by {
                    if t[j] == c {
                        assert(s.subrange(i + j, i + j + 1) =~= p);
                        assert(matches_at(s, p, i + j));
                    }
                }
                let rest = replace_from(s, p, r, k + 1);
                let whole = t + r + rest;
                assert forall|j: int| 0 <= j < whole.len() implies whole[j] != c by {
                    if j < t.len() {
                    } else if j < t.len() + r.len() {
                        assert(whole[j] == r[j - t.len()]);
                    } else {
                        assert(whole[j] == rest[j - t.len() - r.len()]);
                    }
                }
            },
        }
    }
}

proof fn lemma_replace_keeps_absent(s: Seq<char>, p: Seq<char>, r: Seq<char>, c: char, i: int)
    requires
        !s.contains(c),
        !r.contains(c),
    ensures
        !replace_from(s, p, r, i).contains(c),
    decreases s.len() + 1 - i,
{
    if 0 <= i <= s.len() && p.len() > 0 {
        match find_from(s, p, i) {
            None => {
                let t = s.subrange(i, s.len() as int);
                assert forall|j: int| 0 <= j < t.len() implies t[j] != c by {
                    assert(t[j] == s[i + j]);
                }
            },
            Some(k) => {
                if !(k < i || k + p.len() > s.len()) {
                    lemma_replace_keeps_absent(s, p, r, c, k + p.len());
                    let t = s.subrange(i, k);
                    let rest = replace_from(s, p, r, k + p.len());
                    let whole = t + r + rest;
                    assert forall|j: int| 0 <= j < whole.len() implies whole[j] != c by {
                        if j < t.len() {
                            assert(whole[j] == s[i + j]);
                        } else if j < t.len() + r.len() {
                            assert(whole[j] == r[j - t.len()]);
                        } else {
                            assert(whole[j] == rest[j - t.len() - r.len()]);
                        }
                    }
                } else {
                    let t = s.subrange(i, s.len() as int);
                    assert forall|j: int| 0 <= j < t.len() implies t[j] != c by {
                        assert(t[j] == s[i + j]);
                    }
                }
            },
        }
    }
}

/// Every dialogue line of a subtitle document shows its segment inside the clip: it is
/// written with the cue's start and end, both within the clip's span, at least 50 ms apart.
pub proof fn lemma_cue_inside_clip(
    seg: (nat, nat, Seq<char>),
    clip_start: int,
    clip_dur: int,
    offset: int,
    upper: bool,
)
    requires
        clip_dur >= 0,
    ensures
        cue_start(seg, clip_start, offset) >= clip_start,
        cue_end(seg, clip_start, clip_dur, offset) <= clip_start + clip_dur,
        dialogue_line(seg, clip_start, clip_dur, offset, upper).len() > 0 ==> {
            let rs = cue_start(seg, clip_start, offset);
            let re = cue_end(seg, clip_start, clip_dur, offset);
            &&& rs + 50 <= re
            &&& starts_with_seq(
                dialogue_line(seg, clip_start, clip_dur, offset, upper),
                "Dialogue: 0,"@ + ass_time_spec(rs as nat) + ","@ + ass_time_spec(re as nat),
            )
        },
{
    let line = dialogue_line(seg, clip_start, clip_dur, offset, upper);
    if line.len() > 0 {
        let rs = cue_start(seg, clip_start, offset);
        let re = cue_end(seg, clip_start, clip_dur, offset);
        let head = "Dialogue: 0,"@ + ass_time_spec(rs as nat) + ","@ + ass_time_spec(re as nat);
        assert(line.take(head.len() as int) =~= head);
    }
}


/// Subtitle text that has been made safe holds no brace, so no segment can inject an ASS
/// override tag.
pub proof fn lemma_sanitized_has_no_braces(t: Seq<char>)
    ensures
        !sanitize_spec(t).contains('{'),
        !sanitize_spec(t).contains('}'),
{
    reveal_strlit("{");
    reveal_strlit("}");
    reveal_strlit("(");
    reveal_strlit(")");
    reveal_strlit("\r\n");
    reveal_strlit("\n");
    reveal_strlit("\\N");
    let a = replace_seq(t, "{"@, "("@);
    assert("{"@ =~= seq!['{']);
    assert("}"@ =~= seq!['}']);
    assert(!"("@.contains('{'));
    assert(!")"@.contains('{') && !")"@.contains('}'));
    assert(!"\\N"@.contains('{') && !"\\N"@.contains('}'));
    lemma_replace_removes(t, '{', "("@, 0);
    let b = replace_seq(a, "}"@, ")"@);
    lemma_replace_keeps_absent(a, "}"@, ")"@, '{', 0);
    lemma_replace_removes(a, '}', ")"@, 0);
    let c = replace_seq(b, "\r\n"@, "\\N"@);
    lemma_replace_keeps_absent(b, "\r\n"@, "\\N"@, '{', 0);
    lemma_replace_keeps_absent(b, "\r\n"@, "\\N"@, '}', 0);
    lemma_replace_keeps_absent(c, "\n"@, "\\N"@, '{', 0);
    lemma_replace_keeps_absent(c, "\n"@, "\\N"@, '}', 0);
}


proof fn lemma_replace_keeps_ascii(s: Seq<char>, p: Seq<char>, r: Seq<char>, i: int)
    requires
        all_ascii(s),
        all_ascii(r),
    ensures
        all_ascii(replace_from(s, p, r, i)),
    decreases s.len() + 1 - i,
{
    if 0 <= i <= s.len() && p.len() > 0 {
        match find_from(s, p, i) {
            None => {
                let t = s.subrange(i, s.len() as int);
                assert forall|j: int| 0 <= j < t.len() implies #[trigger] t[j] < '\u{80}' by {
                    assert(t[j] == s[i + j]);
                }
            },
            Some(k) => {
                if !(k < i || k + p.len() > s.len()) {
                    lemma_replace_keeps_ascii(s, p, r, k + p.len());
                    let t = s.subrange(i, k);
                    let rest = replace_from(s, p, r, k + p.len());
                    let whole = t + r + rest;
                    assert forall|j: int| 0 <= j < whole.len() implies #[trigger] whole[j]
                        < '\u{80}' by {
                        if j < t.len() {
                            assert(whole[j] == s[i + j]);
                        } else if j < t.len() + r.len() {
                            assert(whole[j] == r[j - t.len()]);
                        } else {
                            assert(whole[j] == rest[j - t.len() - r.len()]);
                        }
                    }
                } else {
                    let t = s.subrange(i, s.len() as int);
                    assert forall|j: int| 0 <= j < t.len() implies #[trigger] t[j] < '\u{80}' by {
                        assert(t[j] == s[i + j]);
                    }
                }
            },
        }
    }
}

/// Subtitle text made safe from an ASCII text is ASCII.
proof fn lemma_sanitized_ascii(t: Seq<char>)
    requires
        all_ascii(t),
    ensures
        all_ascii(sanitize_spec(trim_seq(t))),
{
    reveal_strlit("{");
    reveal_strlit("}");
    reveal_strlit("(");
    reveal_strlit(")");
    reveal_strlit("\r\n");
    reveal_strlit("\n");
    reveal_strlit("\\N");
    lemma_lead_from(t, ws(), 0);
    let a = trim_start_seq(t);
    assert(all_ascii(a)) by {
        assert forall|j: int| 0 <= j < a.len() implies #[trigger] a[j] < '\u{80}' by {
            assert(a[j] == t[j + lead_from(t, ws(), 0)]);
        }
    }
    lemma_trail_from(a, ws(), a.len() as int);
    let b = trim_end_seq(a);
    assert(all_ascii(b)) by {
        assert forall|j: int| 0 <= j < b.len() implies #[trigger] b[j] < '\u{80}' by {
            assert(b[j] == a[j]);
        }
    }
    assert(all_ascii("("@) && all_ascii(")"@) && all_ascii("\\N"@));
    let c1 = replace_seq(b, "{"@, "("@);
    lemma_replace_keeps_ascii(b, "{"@, "("@, 0);
    let c2 = replace_seq(c1, "}"@, ")"@);
    lemma_replace_keeps_ascii(c1, "}"@, ")"@, 0);
    let c3 = replace_seq(c2, "\r\n"@, "\\N"@);
    lemma_replace_keeps_ascii(c2, "\r\n"@, "\\N"@, 0);
    lemma_replace_keeps_ascii(c3, "\n"@, "\\N"@, 0);
}

/// The dialogue line of each segment, or nothing for a segment that does not show in the
/// clip.
pub open spec fn cue_lines(
    segs: Seq<(nat, nat, Seq<char>)>,
    clip_start: int,
    clip_dur: int,
    offset: int,
    upper: bool,
) -> Seq<Seq<char>> {
    Seq::new(
        segs.len(),
        |k: int|
            if shows_in_clip(segs[k], offset, clip_dur) {
                dialogue_line(segs[k], clip_start, clip_dur, offset, upper)
            } else {
                seq![]
            },
    )
}

/// The texts joined end to end.
pub open spec fn concat_all(ls: Seq<Seq<char>>) -> Seq<char>
    decreases ls.len(),
{
    if ls.len() == 0 {
        seq![]
    } else {
        concat_all(ls.drop_last()) + ls.last()
    }
}

proof fn lemma_dialogue_lines_concat(
    segs: Seq<(nat, nat, Seq<char>)>,
    clip_start: int,
    clip_dur: int,
    offset: int,
    upper: bool,
)
    ensures
        dialogue_lines(segs, clip_start, clip_dur, offset, upper) == concat_all(
            cue_lines(segs, clip_start, clip_dur, offset, upper),
        ),
    decreases segs.len(),
{
    if segs.len() > 0 {
        lemma_dialogue_lines_concat(segs.drop_last(), clip_start, clip_dur, offset, upper);
        assert(cue_lines(segs, clip_start, clip_dur, offset, upper).drop_last() =~= cue_lines(
            segs.drop_last(),
            clip_start,
            clip_dur,
            offset,
            upper,
        ));
    }
}

/// The text a segment's dialogue line shows: trimmed, made safe, and upper-cased in the
/// upper-casing style.
pub open spec fn cue_text(seg: (nat, nat, Seq<char>), upper: bool) -> Seq<char> {
    let t = sanitize_spec(trim_seq(seg.2));
    if upper {
        uppercase_of(t)
    } else {
        t
    }
}

/// One dialogue line is written with the cue's times inside the clip, at least 50 ms apart,
/// and the segment's text, which holds no brace unless the style upper-cases a text that is
/// not ASCII.
pub open spec fn well_formed_cue(
    line: Seq<char>,
    seg: (nat, nat, Seq<char>),
    clip_start: int,
    clip_dur: int,
    offset: int,
    upper: bool,
) -> bool {
    let rs = cue_start(seg, clip_start, offset);
    let re = cue_end(seg, clip_start, clip_dur, offset);
    let t = cue_text(seg, upper);
    line.len() > 0 ==> {
        &&& clip_start <= rs
        &&& rs + 50 <= re <= clip_start + clip_dur
        &&& line == "Dialogue: 0,"@ + ass_time_spec(rs as nat) + ","@ + ass_time_spec(re as nat)
            + ",Default,,0,0,0,,"@ + t + "\n"@
        &&& (!upper || all_ascii(seg.2)) ==> !t.contains('{') && !t.contains('}')
    }
}

proof fn lemma_cue_well_formed(
    seg: (nat, nat, Seq<char>),
    clip_start: int,
    dur: int,
    offset: int,
    upper: bool,
)
    requires
        clip_start >= 0,
        dur >= 0,
    ensures
        well_formed_cue(dialogue_line(seg, clip_start, dur, offset, upper), seg, clip_start, dur, offset, upper),
        well_formed_cue(seq![], seg, clip_start, dur, offset, upper),
{
    let line = dialogue_line(seg, clip_start, dur, offset, upper);
    lemma_cue_inside_clip(seg, clip_start, dur, offset, upper);
    let t0 = sanitize_spec(trim_seq(seg.2));
    let t = cue_text(seg, upper);
    lemma_sanitized_has_no_braces(trim_seq(seg.2));
    if upper && all_ascii(seg.2) {
        lemma_sanitized_ascii(seg.2);
        lemma_uppercase_ascii(t0);
        assert forall|j: int| 0 <= j < t.len() implies t[j] != '{' && t[j] != '}' by {
            assert(t[j] == ascii_upper(t0[j]));
            if t0[j] == '{' {
                assert(t0.contains('{'));
            }
            if t0[j] == '}' {
                assert(t0.contains('}'));
            }
        }
    }
}

proof fn lemma_header_opens(w: nat, h: nat, st: AssStyle, rest: Seq<char>)
    ensures
        starts_with_seq(ass_header(w, h, st) + rest, "[Script Info]\n"@),
{
    reveal_strlit("[Script Info]\n");
    let a = ass_header(w, h, st) + rest;
    assert(a.take(14) =~= "[Script Info]\n"@);
}

/// A subtitle document exists exactly when some segment shows in the clip. It is then the
/// script header, which opens with `[Script Info]`, followed by one dialogue line per
/// segment shown, in order; every line carries cue times inside the clip, at least 50 ms
/// apart, and a text free of braces (in the upper-casing style, for ASCII text).
pub proof fn lemma_ass_document(
    segs: Seq<(nat, nat, Seq<char>)>,
    clip_start: nat,
    clip_end: nat,
    offset: nat,
    w: nat,
    h: nat,
    style_name: Seq<char>,
)
    requires
        clip_start <= clip_end,
    ensures
        ass_spec(segs, clip_start, clip_end, offset, w, h, style_name) is Some <==> any_shows(
            segs,
            offset as int,
            clip_end - clip_start,
        ),
        ass_spec(segs, clip_start, clip_end, offset, w, h, style_name) matches Some(a) ==> {
            let st = style_for(lowercase_of(style_name), h);
            let ls = cue_lines(segs, clip_start as int, clip_end - clip_start, offset as int, st.upper);
            &&& starts_with_seq(a, "[Script Info]\n"@)
            &&& a == ass_header(w, h, st) + concat_all(ls)
            &&& forall|k: int|
                0 <= k < ls.len() ==> well_formed_cue(
                    #[trigger] ls[k],
                    segs[k],
                    clip_start as int,
                    clip_end - clip_start,
                    offset as int,
                    st.upper,
                )
        },
{
    let dur = clip_end - clip_start;
    let st = style_for(lowercase_of(style_name), h);
    lemma_dialogue_lines_concat(segs, clip_start as int, dur, offset as int, st.upper);
    let ls = cue_lines(segs, clip_start as int, dur, offset as int, st.upper);
    lemma_header_opens(w, h, st, concat_all(ls));
    assert forall|k: int| 0 <= k < ls.len() implies well_formed_cue(
        #[trigger] ls[k],
        segs[k],
        clip_start as int,
        dur,
        offset as int,
        st.upper,
    ) by {
        lemma_cue_well_formed(segs[k], clip_start as int, dur, offset as int, st.upper);
    }
}

// ---------------------------------------------------------------------------
// Reading FFmpeg's reports.
// ---------------------------------------------------------------------------

pub open spec fn not_field_end() -> spec_fn(char) -> bool {
    |c: char| c != ',' && c != '\n' && c != '\r'
}

/// The `Duration: H:MM:SS.ss` that FFmpeg prints, in milliseconds.
pub open spec fn duration_spec(stderr: Seq<char>) -> Option<nat> {
    match find_seq(stderr, "Duration: "@) {
        None => None,
        Some(pos) => {
            let after = stderr.skip(pos + 10);
            let d = after.take(lead_from(after, not_field_end(), 0) as int);
            let parts = split_char(trim_seq(d), ':');
            if parts.len() != 3 {
                None
            } else {
                match (
                    decimal_milli(trim_seq(parts[0])),
                    decimal_milli(trim_seq(parts[1])),
                    decimal_milli(trim_seq(parts[2])),
                ) {
                    (Some(h), Some(m), Some(s)) => if h * 3600 + m * 60 + s <= u64::MAX {
                        Some(h * 3600 + m * 60 + s)
                    } else {
                        None
                    },
                    _ => None,
                }
            }
        },
    }
}

/// Reads the duration, in milliseconds, from FFmpeg's report on its input.
pub fn parse_ffmpeg_duration(stderr: &str) -> (r: Option<u64>)
    ensures
        r is Some <==> duration_spec(stderr@) is Some,
        r matches Some(v) ==> duration_spec(stderr@) == Some(v as nat),
{
    proof {
        reveal_strlit("Duration: ");
    }
    let sc = chars_of(stderr);
    let pos = match find(&sc, &chars_of("Duration: ")) {
        None => {
            return None;
        },
        Some(p) => p,
    };
    let after = copy_range(&sc, pos + 10, sc.len());
    assert(after@ =~= sc@.skip(pos + 10));
    let mut n: usize = 0;
    while n < after.len() && after[n] != ',' && after[n] != '\n' && after[n] != '\r'
        invariant
            n <= after@.len(),
            lead_from(after@, not_field_end(), 0) == n + lead_from(after@, not_field_end(), n as int),
        decreases after@.len() - n,
    {
        n += 1;
    }
    let d = copy_range(&after, 0, n);
    assert(d@ =~= after@.take(n as int));
    let parts = split_char_exec(&trim(&d), ':');
    if parts.len() != 3 {
        return None;
    }
    let h = parse_decimal_milli(&trim(&parts[0]));
    let m = parse_decimal_milli(&trim(&parts[1]));
    let s = parse_decimal_milli(&trim(&parts[2]));
    assert(views(parts@)[0] == parts@[0]@ && views(parts@)[1] == parts@[1]@ && views(parts@)[2]
        == parts@[2]@);
    match (h, m, s) {
        (Some(h), Some(m), Some(s)) => {
            let total: u128 = h as u128 * 3600 + m as u128 * 60 + s as u128;
            if total <= u64::MAX as u128 {
                Some(total as u64)
            } else {
                None
            }
        },
        _ => {
            proof {
                let sp = views(parts@);
                let hh = decimal_milli(trim_seq(sp[0]));
                let mm = decimal_milli(trim_seq(sp[1]));
                let ss = decimal_milli(trim_seq(sp[2]));
                if hh is Some && mm is Some && ss is Some {
                    let hv = hh->0;
                    let mv = mm->0;
                    let sv = ss->0;
                    assert(hv > u64::MAX || mv > u64::MAX || sv > u64::MAX);
                    assert(hv * 3600 + mv * 60 + sv > u64::MAX) by (nonlinear_arith)
                        requires
                            hv > u64::MAX || mv > u64::MAX || sv > u64::MAX,
                    ;
                }
            }
            None
        },
    }
}

/// The first line of FFmpeg's version report, trimmed ("ffmpeg" when it printed nothing).
pub open spec fn version_line_spec(stdout: Seq<char>) -> Seq<char> {
    let ls = lines_seq(stdout);
    if ls.len() > 0 {
        trim_seq(ls[0])
    } else {
        "ffmpeg"@
    }
}

/// The version line FFmpeg reports.
pub fn ffmpeg_version_line(stdout: &str) -> (r: String)
    ensures
        r@ == version_line_spec(stdout@),
{
    let ls = lines(&chars_of(stdout));
    if ls.len() > 0 {
        assert(views(ls@)[0] == ls@[0]@);
        string_of(&trim(&ls[0]))
    } else {
        string_of(&chars_of("ffmpeg"))
    }
}

/// FFprobe's answer names a video stream.
pub fn reports_video_stream(stdout: &str) -> (r: bool)
    ensures
        r == (trim_seq(stdout@) == "video"@),
{
    same_chars(&trim(&chars_of(stdout)), &chars_of("video"))
}

// ---------------------------------------------------------------------------
// Loudness.
// ---------------------------------------------------------------------------

/// A moment of raised vocal energy: its time in milliseconds, its momentary loudness in
/// thousandths of a LUFS, and how far it rises above the baseline in basis points
/// (0 is the baseline, 10000 a full shout ten decibels above it).
#[derive(Debug, Clone, Copy, PartialEq, Eq, Structural)]
pub struct AudioPeak {
    pub timestamp_ms: u64,
    pub loudness_milli_lufs: i64,
    pub relative_energy_bp: u64,
}

/// The highest relative energy among the peaks at `start..=end`, from index `i` on.
pub open spec fn energy_from(peaks: Seq<AudioPeak>, start: u64, end: u64, i: int) -> nat
    decreases peaks.len() - i,
{
    if i < 0 || i >= peaks.len() {
        0
    } else {
        let rest = energy_from(peaks, start, end, i + 1);
        let p = peaks[i];
        if start <= p.timestamp_ms <= end && p.relative_energy_bp > rest {
            p.relative_energy_bp as nat
        } else {
            rest
        }
    }
}

/// The audio energy of a span of time: the highest relative energy among the loudness peaks
/// inside it, 0 when there is none.
pub fn compute_segment_audio_energy(peaks: &[AudioPeak], start_ms: u64, end_ms: u64) -> (r: u64)
    ensures
        r as nat == energy_from(peaks@, start_ms, end_ms, 0),
{
    let mut m: u64 = 0;
    let mut i: usize = peaks.len();
    while i > 0
        invariant
            i <= peaks@.len(),
            m as nat == energy_from(peaks@, start_ms, end_ms, i as int),
        decreases i,
    {
        i -= 1;
        let p = peaks[i];
        if start_ms <= p.timestamp_ms && p.timestamp_ms <= end_ms && p.relative_energy_bp > m {
            m = p.relative_energy_bp;
        }
    }
    m
}

/// The energy of a span is the largest relative energy among the peaks inside it: no peak in
/// the span rises higher, and when some peak lies in it the energy is that of one of them.
pub proof fn lemma_energy_is_max(peaks: Seq<AudioPeak>, start: u64, end: u64, i: int)
    requires
        0 <= i <= peaks.len(),
    ensures
        forall|k: int|
            i <= k < peaks.len() && start <= (#[trigger] peaks[k]).timestamp_ms <= end ==> peaks[k].relative_energy_bp
                <= energy_from(peaks, start, end, i),
        energy_from(peaks, start, end, i) == 0 || exists|k: int|
            i <= k < peaks.len() && start <= (#[trigger] peaks[k]).timestamp_ms <= end
                && peaks[k].relative_energy_bp == energy_from(peaks, start, end, i),
    decreases peaks.len() - i,
{
    if i < peaks.len() {
        lemma_energy_is_max(peaks, start, end, i + 1);
    }
}


/// The loudness of a recording: its integrated loudness and loudness range in thousandths
/// (of a LUFS and of a LU), and its moments of raised vocal energy in time order.
#[derive(Debug, Clone)]
pub struct AudioLoudnessProfile {
    pub integrated_loudness_milli: i64,
    pub loudness_range_milli: i64,
    pub peaks: Vec<AudioPeak>,
}

/// The first word after index `k` of a line, read as a signed decimal in thousandths.
pub open spec fn number_after(t: Seq<char>, k: int) -> Option<int> {
    let ws = words_seq(t.skip(k));
    if ws.len() > 0 {
        match signed_milli(ws[0]) {
            Some(v) => if -i64::MAX <= v <= i64::MAX {
                Some(v)
            } else {
                None
            },
            None => None,
        }
    } else {
        None
    }
}

/// The value on a summary line `label value ...`.
pub open spec fn summary_value(line: Seq<char>, label: Seq<char>) -> Option<int> {
    let nt = trim_seq(line);
    if starts_with_seq(nt, label) {
        number_after(nt, label.len() as int)
    } else {
        None
    }
}

/// The (time, momentary loudness) of a per-frame line, both in thousandths, if it has both.
pub open spec fn frame_sample(t: Seq<char>) -> Option<(int, int)> {
    if contains_seq(t, "t:"@) && contains_seq(t, "M:"@) {
        match (find_seq(t, "t:"@), find_seq(t, "M:"@)) {
            (Some(ti), Some(mi)) => match (number_after(t, ti + 2), number_after(t, mi + 2)) {
                (Some(tv), Some(mv)) => Some((tv, mv)),
                _ => None,
            },
            _ => None,
        }
    } else {
        None
    }
}

/// What the report's lines from `i` on add: the integrated loudness, the loudness range and
/// the (time, loudness) samples louder than -70 LUFS.
pub open spec fn ebur_scan(
    ls: Seq<Seq<char>>,
    i: int,
    integ: Option<int>,
    lra: Option<int>,
    samples: Seq<(int, int)>,
) -> (Option<int>, Option<int>, Seq<(int, int)>)
    decreases ls.len() - i,
{
    if i < 0 || i >= ls.len() {
        (integ, lra, samples)
    } else {
        let t = trim_seq(ls[i]);
        if starts_with_seq(t, "Integrated loudness:"@) {
            if i + 1 < ls.len() {
                let v = summary_value(ls[i + 1], "I:"@);
                ebur_scan(ls, i + 2, if v is Some { v } else { integ }, lra, samples)
            } else {
                ebur_scan(ls, i + 1, integ, lra, samples)
            }
        } else if starts_with_seq(t, "Loudness range:"@) {
            if i + 1 < ls.len() {
                let v = summary_value(ls[i + 1], "LRA:"@);
                ebur_scan(ls, i + 2, integ, if v is Some { v } else { lra }, samples)
            } else {
                ebur_scan(ls, i + 1, integ, lra, samples)
            }
        } else {
            match frame_sample(t) {
                Some(p) => ebur_scan(
                    ls,
                    i + 1,
                    integ,
                    lra,
                    if p.1 > -70000 {
                        samples.push(p)
                    } else {
                        samples
                    },
                ),
                None => ebur_scan(ls, i + 1, integ, lra, samples),
            }
        }
    }
}

/// `a / b` rounded towards zero, for `b > 0`.
pub open spec fn trunc_div(a: int, b: int) -> int {
    if a >= 0 {
        a / b
    } else {
        -((-a) / b)
    }
}

pub open spec fn sample_sum(s: Seq<(int, int)>) -> int
    decreases s.len(),
{
    if s.len() == 0 {
        0
    } else {
        sample_sum(s.drop_last()) + s.last().1
    }
}

/// The baseline loudness: the integrated loudness when it is above -70 LUFS, else the mean
/// of the samples, else -24 LUFS.
pub open spec fn baseline_spec(integ: Option<int>, samples: Seq<(int, int)>) -> int {
    match integ {
        Some(v) if v > -70000 => v,
        _ => if samples.len() == 0 {
            -24000
        } else {
            trunc_div(sample_sum(samples), samples.len() as int)
        },
    }
}

/// The whole second a sample falls in.
pub open spec fn sample_second(t: int) -> nat {
    if t <= 0 {
        0
    } else if t / 1000 > u32::MAX {
        u32::MAX as nat
    } else {
        (t / 1000) as nat
    }
}

/// A sample added to per-second maxima kept in increasing order of second.
pub open spec fn bucket_add(bs: Seq<(nat, int)>, sec: nat, m: int, j: int) -> Seq<(nat, int)>
    decreases bs.len() - j,
{
    if j < 0 || j >= bs.len() {
        bs.push((sec, m))
    } else if bs[j].0 == sec {
        bs.update(j, (sec, if m > bs[j].1 { m } else { bs[j].1 }))
    } else if sec < bs[j].0 {
        bs.insert(j, (sec, m))
    } else {
        bucket_add(bs, sec, m, j + 1)
    }
}

/// The loudest sample of each second, seconds in increasing order.
pub open spec fn buckets_spec(samples: Seq<(int, int)>) -> Seq<(nat, int)>
    decreases samples.len(),
{
    if samples.len() == 0 {
        seq![]
    } else {
        bucket_add(
            buckets_spec(samples.drop_last()),
            sample_second(samples.last().0),
            samples.last().1,
            0,
        )
    }
}

/// The seconds whose loudest moment is at least 1.5 LU above the baseline, as peaks at the
/// middle of the second with energy growing to full 10 LU above it.
pub open spec fn peaks_spec(bs: Seq<(nat, int)>, baseline: int) -> Seq<(nat, int, nat)>
    decreases bs.len(),
{
    if bs.len() == 0 {
        seq![]
    } else {
        let r = peaks_spec(bs.drop_last(), baseline);
        let (sec, m) = bs.last();
        if m >= baseline + 1500 {
            let diff = m - baseline;
            r.push((sec * 1000 + 500, m, if diff > 10000 { 10000 } else { diff as nat }))
        } else {
            r
        }
    }
}

pub open spec fn peaks_view(p: Seq<AudioPeak>) -> Seq<(nat, int, nat)> {
    p.map_values(|x: AudioPeak| (x.timestamp_ms as nat, x.loudness_milli_lufs as int, x.relative_energy_bp as nat))
}

/// The loudness profile read from an FFmpeg `ebur128` report: (integrated loudness, range,
/// peaks).
pub open spec fn loudness_spec(output: Seq<char>) -> (int, int, Seq<(nat, int, nat)>) {
    let sc = ebur_scan(lines_seq(output), 0, None, None, seq![]);
    let baseline = baseline_spec(sc.0, sc.2);
    (baseline, match sc.1 {
        Some(v) => v,
        None => 0,
    }, peaks_spec(buckets_spec(sc.2), baseline))
}

fn number_after_exec(t: &Vec<char>, k: usize) -> (r: Option<i64>)
    requires
        k <= t@.len(),
    ensures
        match r {
            Some(v) => number_after(t@, k as int) == Some(v as int),
            None => number_after(t@, k as int) is None,
        },
{
    let part = copy_range(t, k, t.len());
    assert(part@ =~= t@.skip(k as int));
    let ws = words(&part);
    if ws.len() > 0 {
        assert(views(ws@)[0] == ws@[0]@);
        parse_signed_milli(&ws[0])
    } else {
        None
    }
}

fn summary_value_exec(line: &Vec<char>, label: &str) -> (r: Option<i64>)
    ensures
        match r {
            Some(v) => summary_value(line@, label@) == Some(v as int),
            None => summary_value(line@, label@) is None,
        },
{
    let nt = trim(line);
    let lc = chars_of(label);
    if starts_with(&nt, &lc) {
        number_after_exec(&nt, lc.len())
    } else {
        None
    }
}

fn frame_sample_exec(t: &Vec<char>) -> (r: Option<(i64, i64)>)
    ensures
        match r {
            Some(p) => frame_sample(t@) == Some((p.0 as int, p.1 as int)),
            None => frame_sample(t@) is None,
        },
{
    proof {
        reveal_strlit("t:");
        reveal_strlit("M:");
    }
    let tk = chars_of("t:");
    let mk = chars_of("M:");
    match (find(t, &tk), find(t, &mk)) {
        (Some(ti), Some(mi)) => {
            match (number_after_exec(t, ti + 2), number_after_exec(t, mi + 2)) {
                (Some(tv), Some(mv)) => Some((tv, mv)),
                _ => None,
            }
        },
        _ => None,
    }
}

pub open spec fn samples_view(s: Seq<(i64, i64)>) -> Seq<(int, int)> {
    s.map_values(|p: (i64, i64)| (p.0 as int, p.1 as int))
}

pub open spec fn buckets_view(s: Seq<(u32, i64)>) -> Seq<(nat, int)> {
    s.map_values(|p: (u32, i64)| (p.0 as nat, p.1 as int))
}

fn bucket_add_exec(bs: &mut Vec<(u32, i64)>, sec: u32, m: i64)
    ensures
        buckets_view(final(bs)@) == bucket_add(buckets_view(old(bs)@), sec as nat, m as int, 0),
{
    let ghost b0 = buckets_view(bs@);
    let mut j: usize = 0;
    while j < bs.len()
        invariant
            j <= bs@.len(),
            b0 == buckets_view(bs@),
            b0 == buckets_view(old(bs)@),
            bucket_add(b0, sec as nat, m as int, 0) == bucket_add(b0, sec as nat, m as int, j as int),
        decreases bs@.len() - j,
    {
        let (s, v) = bs[j];
        assert(b0[j as int] == (s as nat, v as int));
        if s == sec {
            let nv = if m > v {
                m
            } else {
                v
            };
            bs.set(j, (sec, nv));
            assert(buckets_view(bs@) =~= b0.update(j as int, (sec as nat, nv as int)));
            return ;
        } else if sec < s {
            bs.insert(j, (sec, m));
            assert(buckets_view(bs@) =~= b0.insert(j as int, (sec as nat, m as int)));
            return ;
        }
        j += 1;
    }
    bs.push((sec, m));
    assert(buckets_view(bs@) =~= b0.push((sec as nat, m as int)));
}

/// Parses FFmpeg's `ebur128` report: the summary's integrated loudness and loudness range,
/// and the per-frame momentary loudness, from which the loudest moment of each second that
/// rises at least 1.5 LU above the baseline becomes a peak.
pub fn parse_ebur128_output(output: &str) -> (r: AudioLoudnessProfile)
    ensures
        r.integrated_loudness_milli as int == loudness_spec(output@).0,
        r.loudness_range_milli as int == loudness_spec(output@).1,
        peaks_view(r.peaks@) == loudness_spec(output@).2,
{
    let ls = lines(&chars_of(output));
    let ghost lv = views(ls@);
    let mut integ: Option<i64> = None;
    let mut lra: Option<i64> = None;
    let mut samples: Vec<(i64, i64)> = Vec::new();
    let mut i: usize = 0;
    assert(samples_view(samples@) =~= seq![]);
    while i < ls.len()
        invariant
            i <= ls@.len() + 1,
            lv == views(ls@),
            lv == lines_seq(output@),
            ebur_scan(lv, 0, None, None, seq![]) == ebur_scan(
                lv,
                i as int,
                match integ {
                    Some(v) => Some(v as int),
                    None => None,
                },
                match lra {
                    Some(v) => Some(v as int),
                    None => None,
                },
                samples_view(samples@),
            ),
            forall|k: int| 0 <= k < samples@.len() ==> -70000 < (#[trigger] samples@[k]).1,
        decreases ls@.len() + 1 - i,
    {
        assert(lv[i as int] == ls@[i as int]@);
        let t = trim(&ls[i]);
        if starts_with(&t, &chars_of("Integrated loudness:")) {
            if i + 1 < ls.len() {
                assert(lv[i + 1] == ls@[i + 1]@);
                let v = summary_value_exec(&ls[i + 1], "I:");
                if v.is_some() {
                    integ = v;
                }
                i += 2;
            } else {
                i += 1;
            }
        } else if starts_with(&t, &chars_of("Loudness range:")) {
            if i + 1 < ls.len() {
                assert(lv[i + 1] == ls@[i + 1]@);
                let v = summary_value_exec(&ls[i + 1], "LRA:");
                if v.is_some() {
                    lra = v;
                }
                i += 2;
            } else {
                i += 1;
            }
        } else {
            match frame_sample_exec(&t) {
                Some(p) => {
                    if p.1 > -70000 {
                        let ghost before = samples_view(samples@);
                        samples.push(p);
                        assert(samples_view(samples@) =~= before.push((p.0 as int, p.1 as int)));
                    }
                },
                None => {},
            }
            i += 1;
        }
    }
    let ghost sv = samples_view(samples@);
    let mut sum: i128 = 0;
    let mut k: usize = 0;
    while k < samples.len()
        invariant
            k <= samples@.len(),
            sv == samples_view(samples@),
            forall|j: int| 0 <= j < samples@.len() ==> -70000 < (#[trigger] samples@[j]).1,
            sum == sample_sum(sv.take(k as int)),
            -70000 * (k as int) <= sum <= (k as int) * 0x7FFF_FFFF_FFFF_FFFF,
        decreases samples@.len() - k,
    {
        assert(sv.take(k + 1).drop_last() =~= sv.take(k as int));
        assert(sv.take(k + 1).last() == (samples@[k as int].0 as int, samples@[k as int].1 as int));
        assert(samples@.len() <= usize::MAX);
        sum = sum + samples[k].1 as i128;
        k += 1;
    }
    assert(sv.take(samples@.len() as int) =~= sv);
    let baseline: i64 = match integ {
        Some(v) if v > -70000 => v,
        _ => if samples.len() == 0 {
            -24000
        } else {
            let n = samples.len() as i128;
            let q: i128 = if sum >= 0 {
                let q0 = sum / n;
                assert(q0 <= 0x7FFF_FFFF_FFFF_FFFF) by (nonlinear_arith)
                    requires
                        0 <= sum <= n * 0x7FFF_FFFF_FFFF_FFFF,
                        n > 0,
                        q0 == sum / n,
                ;
                q0
            } else {
                let ns: i128 = -sum;
                let q0 = ns / n;
                assert(q0 <= 70000) by (nonlinear_arith)
                    requires
                        0 < ns <= 70000 * n,
                        n > 0,
                        q0 == ns / n,
                ;
                -q0
            };
            q as i64
        },
    };
    let lra_v: i64 = match lra {
        Some(v) => v,
        None => 0,
    };
    let mut bs: Vec<(u32, i64)> = Vec::new();
    let mut k: usize = 0;
    assert(buckets_view(bs@) =~= seq![]);
    while k < samples.len()
        invariant
            k <= samples@.len(),
            sv == samples_view(samples@),
            buckets_view(bs@) == buckets_spec(sv.take(k as int)),
        decreases samples@.len() - k,
    {
        assert(sv.take(k + 1).drop_last() =~= sv.take(k as int));
        assert(sv.take(k + 1).last() == (samples@[k as int].0 as int, samples@[k as int].1 as int));
        let (t, m) = samples[k];
        let sec: u32 = if t <= 0 {
            0
        } else if t / 1000 > u32::MAX as i64 {
            u32::MAX
        } else {
            (t / 1000) as u32
        };
        bucket_add_exec(&mut bs, sec, m);
        k += 1;
    }
    assert(sv.take(samples@.len() as int) =~= sv);
    let ghost bv = buckets_view(bs@);
    let mut peaks: Vec<AudioPeak> = Vec::new();
    let mut j: usize = 0;
    assert(peaks_view(peaks@) =~= seq![]);
    while j < bs.len()
        invariant
            j <= bs@.len(),
            bv == buckets_view(bs@),
            -70000 <= baseline,
            peaks_view(peaks@) == peaks_spec(bv.take(j as int), baseline as int),
        decreases bs@.len() - j,
    {
        assert(bv.take(j + 1).drop_last() =~= bv.take(j as int));
        assert(bv.take(j + 1).last() == (bs@[j as int].0 as nat, bs@[j as int].1 as int));
        let (sec, m) = bs[j];
        if m as i128 >= baseline as i128 + 1500 {
            let diff: i128 = m as i128 - baseline as i128;
            let bp: u64 = if diff > 10000 {
                10000
            } else {
                diff as u64
            };
            let ghost before = peaks_view(peaks@);
            let p = AudioPeak {
                timestamp_ms: sec as u64 * 1000 + 500,
                loudness_milli_lufs: m,
                relative_energy_bp: bp,
            };
            peaks.push(p);
            assert(peaks_view(peaks@) =~= before.push((sec as nat * 1000 + 500, m as int, bp as nat)));
        }
        j += 1;
    }
    assert(bv.take(bs@.len() as int) =~= bv);
    AudioLoudnessProfile { integrated_loudness_milli: baseline, loudness_range_milli: lra_v, peaks }
}


pub open spec fn keys_increasing(bs: Seq<(nat, int)>) -> bool {
    forall|a: int, b: int| 0 <= a < b < bs.len() ==> (#[trigger] bs[a]).0 < (#[trigger] bs[b]).0
}

proof fn lemma_bucket_add_sorted(bs: Seq<(nat, int)>, sec: nat, m: int, j: int)
    requires
        keys_increasing(bs),
        0 <= j <= bs.len(),
        forall|k: int| 0 <= k < j ==> (#[trigger] bs[k]).0 < sec,
    ensures
        keys_increasing(bucket_add(bs, sec, m, j)),
    decreases bs.len() - j,
{
    let r = bucket_add(bs, sec, m, j);
    if j >= bs.len() {
        assert forall|a: int, b: int| 0 <= a < b < r.len() implies (#[trigger] r[a]).0 < (#[trigger] r[b]).0 by {
            if b < bs.len() {
                assert(r[a] == bs[a] && r[b] == bs[b]);
            } else {
                assert(r[a] == bs[a]);
            }
        }
    } else if bs[j].0 == sec {
        assert forall|a: int, b: int| 0 <= a < b < r.len() implies (#[trigger] r[a]).0 < (#[trigger] r[b]).0 by {
            assert(r[a].0 == bs[a].0 && r[b].0 == bs[b].0);
        }
    } else if sec < bs[j].0 {
        assert forall|a: int, b: int| 0 <= a < b < r.len() implies (#[trigger] r[a]).0 < (#[trigger] r[b]).0 by {
            if b < j {
                assert(r[a] == bs[a] && r[b] == bs[b]);
            } else if b == j {
                assert(r[a] == bs[a]);
            } else if a < j {
                assert(r[a] == bs[a] && r[b] == bs[b - 1]);
            } else if a == j {
                assert(r[b] == bs[b - 1]);
                assert(bs[j].0 <= bs[b - 1].0);
            } else {
                assert(r[a] == bs[a - 1] && r[b] == bs[b - 1]);
            }
        }
    } else {
        lemma_bucket_add_sorted(bs, sec, m, j + 1);
    }
}

proof fn lemma_buckets_sorted(samples: Seq<(int, int)>)
    ensures
        keys_increasing(buckets_spec(samples)),
    decreases samples.len(),
{
    if samples.len() > 0 {
        lemma_buckets_sorted(samples.drop_last());
        lemma_bucket_add_sorted(
            buckets_spec(samples.drop_last()),
            sample_second(samples.last().0),
            samples.last().1,
            0,
        );
    }
}

proof fn lemma_peaks_sorted(bs: Seq<(nat, int)>, baseline: int)
    requires
        keys_increasing(bs),
    ensures
        forall|a: int, b: int|
            0 <= a < b < peaks_spec(bs, baseline).len() ==> (#[trigger] peaks_spec(bs, baseline)[a]).0
                < (#[trigger] peaks_spec(bs, baseline)[b]).0,
        forall|a: int|
            0 <= a < peaks_spec(bs, baseline).len() ==> (#[trigger] peaks_spec(bs, baseline)[a]).2 <= 10000,
        bs.len() > 0 ==> forall|a: int|
            0 <= a < peaks_spec(bs, baseline).len() ==> (#[trigger] peaks_spec(bs, baseline)[a]).0
                <= bs.last().0 * 1000 + 500,
    decreases bs.len(),
{
    if bs.len() > 0 {
        let d = bs.drop_last();
        assert(keys_increasing(d)) by {
            assert forall|a: int, b: int| 0 <= a < b < d.len() implies (#[trigger] d[a]).0 < (#[trigger] d[b]).0 by {
                assert(d[a] == bs[a] && d[b] == bs[b]);
            }
        }
        lemma_peaks_sorted(d, baseline);
        let p = peaks_spec(d, baseline);
        let r = peaks_spec(bs, baseline);
        if d.len() > 0 {
            assert(d.last() == bs[bs.len() - 2]);
            assert(bs[bs.len() - 2].0 < bs.last().0);
        }
        assert forall|a: int| 0 <= a < p.len() implies (#[trigger] p[a]).0 < bs.last().0 * 1000 + 500 by {
            if d.len() > 0 {
                assert(p[a].0 <= d.last().0 * 1000 + 500);
            }
        }
        assert forall|a: int, b: int| 0 <= a < b < r.len() implies (#[trigger] r[a]).0 < (#[trigger] r[b]).0 by {
            if b < p.len() {
                assert(r[a] == p[a] && r[b] == p[b]);
            } else {
                assert(r[a] == p[a]);
            }
        }
        assert forall|a: int| 0 <= a < r.len() implies (#[trigger] r[a]).0 <= bs.last().0 * 1000 + 500 by {
            if a < p.len() {
                assert(r[a] == p[a]);
            }
        }
        assert forall|a: int| 0 <= a < r.len() implies (#[trigger] r[a]).2 <= 10000 by {
            if a < p.len() {
                assert(r[a] == p[a]);
            }
        }
    }
}

/// The loudness peaks of any report come in strictly increasing order of time, and none has a
/// relative energy above full (10000 basis points).
pub proof fn lemma_loudness_peaks_ordered(output: Seq<char>)
    ensures
        forall|a: int, b: int|
            0 <= a < b < loudness_spec(output).2.len() ==> (#[trigger] loudness_spec(output).2[a]).0
                < (#[trigger] loudness_spec(output).2[b]).0,
        forall|a: int|
            0 <= a < loudness_spec(output).2.len() ==> (#[trigger] loudness_spec(output).2[a]).2 <= 10000,
{
    let sc = ebur_scan(lines_seq(output), 0, None, None, seq![]);
    let baseline = baseline_spec(sc.0, sc.2);
    lemma_buckets_sorted(sc.2);
    lemma_peaks_sorted(buckets_spec(sc.2), baseline);
}

/// Some bucket is for second `sec` and holds at least `m`.
pub open spec fn bucket_reaches(bs: Seq<(nat, int)>, sec: nat, m: int) -> bool {
    exists|j: int| 0 <= j < bs.len() && (#[trigger] bs[j]).0 == sec && bs[j].1 >= m
}

/// Bucket `b` is the second and loudness of some sample.
pub open spec fn from_sample(samples: Seq<(int, int)>, b: (nat, int)) -> bool {
    exists|k: int| 0 <= k < samples.len() && sample_second((#[trigger] samples[k]).0) == b.0 && samples[k].1 == b.1
}

proof fn lemma_bucket_add_max(bs: Seq<(nat, int)>, sec: nat, m: int, j: int)
    requires
        0 <= j <= bs.len(),
    ensures
        bucket_reaches(bucket_add(bs, sec, m, j), sec, m),
        forall|q: int| 0 <= q < bs.len() ==> bucket_reaches(bucket_add(bs, sec, m, j), #[trigger] bs[q].0, bs[q].1),
        forall|x: int|
            0 <= x < bucket_add(bs, sec, m, j).len() ==> #[trigger] bucket_add(bs, sec, m, j)[x] == (sec, m)
                || bs.contains(bucket_add(bs, sec, m, j)[x]),
    decreases bs.len() - j,
{
    let r = bucket_add(bs, sec, m, j);
    if j >= bs.len() {
        assert(r[bs.len() as int] == (sec, m));
        assert forall|q: int| 0 <= q < bs.len() implies bucket_reaches(r, #[trigger] bs[q].0, bs[q].1) by {
            assert(r[q] == bs[q]);
        }
        assert forall|x: int| 0 <= x < r.len() implies #[trigger] r[x] == (sec, m) || bs.contains(r[x]) by {
            if x < bs.len() {
                assert(r[x] == bs[x]);
            }
        }
    } else if bs[j].0 == sec {
        assert(r[j].0 == sec && r[j].1 >= m);
        assert forall|q: int| 0 <= q < bs.len() implies bucket_reaches(r, #[trigger] bs[q].0, bs[q].1) by {
            if q == j {
                assert(r[j].1 >= bs[j].1);
            } else {
                assert(r[q] == bs[q]);
            }
        }
        assert forall|x: int| 0 <= x < r.len() implies #[trigger] r[x] == (sec, m) || bs.contains(r[x]) by {
            if x != j {
                assert(r[x] == bs[x]);
            } else if m <= bs[j].1 {
                assert(r[x] == bs[j]);
            }
        }
    } else if sec < bs[j].0 {
        assert(r[j] == (sec, m));
        assert forall|q: int| 0 <= q < bs.len() implies bucket_reaches(r, #[trigger] bs[q].0, bs[q].1) by {
            if q < j {
                assert(r[q] == bs[q]);
            } else {
                assert(r[q + 1] == bs[q]);
            }
        }
        assert forall|x: int| 0 <= x < r.len() implies #[trigger] r[x] == (sec, m) || bs.contains(r[x]) by {
            if x < j {
                assert(r[x] == bs[x]);
            } else if x > j {
                assert(r[x] == bs[x - 1]);
            }
        }
    } else {
        lemma_bucket_add_max(bs, sec, m, j + 1);
    }
}

proof fn lemma_buckets_reach(samples: Seq<(int, int)>)
    ensures
        forall|k: int|
            0 <= k < samples.len() ==> bucket_reaches(
                buckets_spec(samples),
                sample_second((#[trigger] samples[k]).0),
                samples[k].1,
            ),
    decreases samples.len(),
{
    if samples.len() > 0 {
        let d = samples.drop_last();
        lemma_buckets_reach(d);
        let bs = buckets_spec(d);
        let sec = sample_second(samples.last().0);
        let m = samples.last().1;
        let r = buckets_spec(samples);
        lemma_bucket_add_max(bs, sec, m, 0);
        assert forall|k: int| 0 <= k < samples.len() implies bucket_reaches(
            r,
            sample_second((#[trigger] samples[k]).0),
            samples[k].1,
        ) by {
            if k < d.len() {
                assert(d[k] == samples[k]);
                assert(bucket_reaches(bs, sample_second(d[k].0), d[k].1));
                let j = choose|j: int| 0 <= j < bs.len() && (#[trigger] bs[j]).0 == sample_second(d[k].0)
                    && bs[j].1 >= d[k].1;
                assert(bucket_reaches(r, bs[j].0, bs[j].1));
            } else {
                assert(samples[k] == samples.last());
            }
        }
    }
}

proof fn lemma_buckets_from_samples(samples: Seq<(int, int)>)
    ensures
        forall|x: int|
            0 <= x < buckets_spec(samples).len() ==> from_sample(samples, #[trigger] buckets_spec(samples)[x]),
    decreases samples.len(),
{
    if samples.len() > 0 {
        let d = samples.drop_last();
        lemma_buckets_from_samples(d);
        let bs = buckets_spec(d);
        let sec = sample_second(samples.last().0);
        let m = samples.last().1;
        let r = buckets_spec(samples);
        lemma_bucket_add_max(bs, sec, m, 0);
        assert forall|x: int| 0 <= x < r.len() implies from_sample(samples, #[trigger] r[x]) by {
            if r[x] == (sec, m) {
                assert(samples[samples.len() - 1] == samples.last());
            } else {
                assert(bs.contains(r[x]));
                let q = choose|q: int| 0 <= q < bs.len() && bs[q] == r[x];
                assert(from_sample(d, bs[q]));
                let k = choose|k: int| 0 <= k < d.len() && sample_second((#[trigger] d[k]).0) == bs[q].0
                    && d[k].1 == bs[q].1;
                assert(samples[k] == d[k]);
            }
        }
    }
}

/// Each second's bucket holds the loudest momentary loudness among the samples of that
/// second: every sample's second has a bucket at least as loud as it, and every bucket is
/// the second and loudness of some sample.
pub proof fn lemma_buckets_hold_maxima(samples: Seq<(int, int)>)
    ensures
        forall|k: int|
            0 <= k < samples.len() ==> bucket_reaches(
                buckets_spec(samples),
                sample_second((#[trigger] samples[k]).0),
                samples[k].1,
            ),
        forall|x: int|
            0 <= x < buckets_spec(samples).len() ==> from_sample(samples, #[trigger] buckets_spec(samples)[x]),
{
    lemma_buckets_reach(samples);
    lemma_buckets_from_samples(samples);
}

proof fn lemma_peaks_cover(bs: Seq<(nat, int)>, baseline: int)
    ensures
        forall|j: int|
            0 <= j < bs.len() && (#[trigger] bs[j]).1 >= baseline + 1500 ==> peaks_spec(bs, baseline).contains(
                (
                    bs[j].0 * 1000 + 500,
                    bs[j].1,
                    if bs[j].1 - baseline > 10000 {
                        10000nat
                    } else {
                        (bs[j].1 - baseline) as nat
                    },
                ),
            ),
    decreases bs.len(),
{
    if bs.len() > 0 {
        let d = bs.drop_last();
        lemma_peaks_cover(d, baseline);
        let r0 = peaks_spec(d, baseline);
        let r = peaks_spec(bs, baseline);
        assert forall|j: int|
            0 <= j < bs.len() && (#[trigger] bs[j]).1 >= baseline + 1500 implies r.contains(
                (
                    bs[j].0 * 1000 + 500,
                    bs[j].1,
                    if bs[j].1 - baseline > 10000 {
                        10000nat
                    } else {
                        (bs[j].1 - baseline) as nat
                    },
                ),
            ) by {
            let p = (
                bs[j].0 * 1000 + 500,
                bs[j].1,
                if bs[j].1 - baseline > 10000 {
                    10000nat
                } else {
                    (bs[j].1 - baseline) as nat
                },
            );
            if j < d.len() {
                assert(d[j] == bs[j]);
                assert(r0.contains(p));
                let w = choose|w: int| 0 <= w < r0.len() && r0[w] == p;
                if bs.last().1 >= baseline + 1500 {
                    assert(r[w] == r0[w]);
                } else {
                    assert(r == r0);
                }
            } else {
                assert(bs[j] == bs.last());
                assert(r[r.len() - 1] == p);
            }
        }
    }
}

/// A second holds a loudness peak whenever any sample in it is at least 1.5 LU above the
/// baseline: the peak sits at the middle of that second and is at least as loud as the
/// sample.
pub proof fn lemma_loud_sample_gives_peak(samples: Seq<(int, int)>, baseline: int)
    ensures
        forall|k: int|
            0 <= k < samples.len() && (#[trigger] samples[k]).1 >= baseline + 1500 ==> exists|p: int|
                0 <= p < peaks_spec(buckets_spec(samples), baseline).len() && (#[trigger] peaks_spec(
                    buckets_spec(samples),
                    baseline,
                )[p]).0 == sample_second(samples[k].0) * 1000 + 500 && peaks_spec(
                    buckets_spec(samples),
                    baseline,
                )[p].1 >= samples[k].1,
{
    let bs = buckets_spec(samples);
    let ps = peaks_spec(bs, baseline);
    lemma_buckets_hold_maxima(samples);
    lemma_peaks_cover(bs, baseline);
    assert forall|k: int| 0 <= k < samples.len() && (#[trigger] samples[k]).1 >= baseline + 1500 implies exists|p: int|
        0 <= p < ps.len() && (#[trigger] ps[p]).0 == sample_second(samples[k].0) * 1000 + 500
            && ps[p].1 >= samples[k].1 by {
        assert(bucket_reaches(bs, sample_second(samples[k].0), samples[k].1));
        let j = choose|j: int| 0 <= j < bs.len() && (#[trigger] bs[j]).0 == sample_second(samples[k].0)
            && bs[j].1 >= samples[k].1;
        assert(bs[j].1 >= baseline + 1500);
        let pk = (
            bs[j].0 * 1000 + 500,
            bs[j].1,
            if bs[j].1 - baseline > 10000 {
                10000nat
            } else {
                (bs[j].1 - baseline) as nat
            },
        );
        assert(ps.contains(pk));
        let w = choose|w: int| 0 <= w < ps.len() && ps[w] == pk;
        assert(ps[w].0 == sample_second(samples[k].0) * 1000 + 500);
    }
}

} // verus!
