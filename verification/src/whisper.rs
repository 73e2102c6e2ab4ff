use vstd::prelude::*;
use crate::models::{seg_view, segs_view, Chapter, TranscriptSegment};
use crate::structuring::{clamp_slice, clamp_slice_exec};
use crate::text::{
    byte_head, head_bytes, head_on_boundary, starts_with,
    byte_len, chars_of, contains, contains_seq, copy_range, drop_chars, ends_with_seq,
    find_seq, find, is_alphanumeric, is_numeric, is_uppercase, lead_from, lemma_lead_from,
    lemma_trail_from, lowercase_of, push_all, push_str, remove_chars, same_chars, starts_with_seq,
    string_of, to_lowercase, trail_from, trim, trim_seq, unicode_alphanumeric, unicode_numeric,
    unicode_uppercase, utf8_byte_len, views, words, words_seq, trim_start_seq, trim_end_seq, ws,
    unicode_whitespace,
};

verus! {

/// Which cloud service transcribes the audio.
///
/// - `Groq`: fast speech-to-text via Groq Whisper Large v3 Turbo (primary).
/// - `Deepgram`: speech-to-text via Deepgram Nova-3 (fallback).
#[derive(Debug, Clone)]
pub enum TranscriptionBackend {
    Groq { api_key: String },
    Deepgram { api_key: String },
}

/// The unified output of the transcription stage.
#[derive(Debug, Clone)]
pub struct TranscriptionResult {
    pub segments: Vec<TranscriptSegment>,
    pub chapters: Vec<Chapter>,
}

/// The words that bias recognition towards sermon vocabulary.
pub open spec fn base_prompt() -> Seq<char> {
    "Hallelujah, Amen. Praise the Lord Jesus Christ. Let us open our Bibles to the Word of God today. Pastor, Apostle, Holy Spirit, Jehovah God."@
}

/// The recognition prompt: the base prompt, then the trimmed custom vocabulary if any.
pub open spec fn whisper_prompt_spec(custom_vocab: Option<Seq<char>>) -> Seq<char> {
    match custom_vocab {
        Some(v) => if trim_seq(v).len() > 0 {
            base_prompt() + " "@ + trim_seq(v)
        } else {
            base_prompt()
        },
        None => base_prompt(),
    }
}

pub open spec fn opt_str(o: Option<&str>) -> Option<Seq<char>> {
    match o {
        Some(s) => Some(s@),
        None => None,
    }
}

/// Builds the prompt that biases recognition towards sermon vocabulary, with the custom
/// vocabulary appended.
pub fn build_whisper_prompt(custom_vocab: Option<&str>) -> (r: String)
    ensures
        r@ == whisper_prompt_spec(opt_str(custom_vocab)),
{
    let mut prompt = chars_of(
        "Hallelujah, Amen. Praise the Lord Jesus Christ. Let us open our Bibles to the Word of God today. Pastor, Apostle, Holy Spirit, Jehovah God.",
    );
    if let Some(vocab) = custom_vocab {
        let clean = trim(&chars_of(vocab));
        if clean.len() > 0 {
            let ghost before = prompt@;
            push_str(&mut prompt, " ");
            push_all(&mut prompt, &clean);
            assert(prompt@ =~= before + " "@ + clean@);
        }
    }
    string_of(&prompt)
}

/// Whether one of the phrases `f(i)`, `i..n`, occurs in `h`.
pub open spec fn contains_any(h: Seq<char>, f: spec_fn(int) -> Seq<char>, n: int, i: int) -> bool
    decreases n - i,
{
    if i < 0 || i >= n {
        false
    } else {
        contains_seq(h, f(i)) || contains_any(h, f, n, i + 1)
    }
}

/// The inline sound tags removed from a segment's text, in the order they are removed.
pub open spec fn sound_tag(i: int) -> Seq<char> {
    if i == 0 {
        "[music]"@
    } else if i == 1 {
        "(music)"@
    } else if i == 2 {
        "[applause]"@
    } else if i == 3 {
        "(applause)"@
    } else if i == 4 {
        "[laughter]"@
    } else if i == 5 {
        "(laughter)"@
    } else if i == 6 {
        "[silence]"@
    } else if i == 7 {
        "(silence)"@
    } else if i == 8 {
        "[cheering]"@
    } else if i == 9 {
        "(cheering)"@
    } else if i == 10 {
        "[singing]"@
    } else {
        "(singing)"@
    }
}

fn sound_tag_exec(i: usize) -> (r: &'static str)
    requires
        i < 12,
    ensures
        r@ == sound_tag(i as int),
{
    match i {
        0 => "[music]",
        1 => "(music)",
        2 => "[applause]",
        3 => "(applause)",
        4 => "[laughter]",
        5 => "(laughter)",
        6 => "[silence]",
        7 => "(silence)",
        8 => "[cheering]",
        9 => "(cheering)",
        10 => "[singing]",
        _ => "(singing)",
    }
}

/// Words that mark a bracketed tag as a sound rather than speech.
pub open spec fn sound_word(i: int) -> Seq<char> {
    if i == 0 {
        "music"@
    } else if i == 1 {
        "applause"@
    } else if i == 2 {
        "laughter"@
    } else if i == 3 {
        "cheering"@
    } else if i == 4 {
        "silence"@
    } else if i == 5 {
        "instrumental"@
    } else if i == 6 {
        "singing"@
    } else {
        "sound"@
    }
}

fn sound_word_exec(i: usize) -> (r: &'static str)
    requires
        i < 8,
    ensures
        r@ == sound_word(i as int),
{
    match i {
        0 => "music",
        1 => "applause",
        2 => "laughter",
        3 => "cheering",
        4 => "silence",
        5 => "instrumental",
        6 => "singing",
        _ => "sound",
    }
}

/// Subtitle credits and web artifacts that speech recognition invents.
pub open spec fn credit_phrase(i: int) -> Seq<char> {
    if i == 0 {
        "subtitles by"@
    } else if i == 1 {
        "subtitles made by"@
    } else if i == 2 {
        "subtitles created by"@
    } else if i == 3 {
        "subtitled by"@
    } else if i == 4 {
        "captioned by"@
    } else if i == 5 {
        "captions by"@
    } else if i == 6 {
        "closed captions by"@
    } else if i == 7 {
        "translated by"@
    } else if i == 8 {
        "transcribed by"@
    } else if i == 9 {
        "transcript by"@
    } else if i == 10 {
        "reading text in"@
    } else if i == 11 {
        "community contributor"@
    } else if i == 12 {
        "amara.org"@
    } else if i == 13 {
        "opensubtitles"@
    } else if i == 14 {
        "youtube.com"@
    } else if i == 15 {
        "like and subscribe"@
    } else if i == 16 {
        "thanks for watching"@
    } else if i == 17 {
        "thank you for watching"@
    } else if i == 18 {
        "subscribe to my channel"@
    } else if i == 19 {
        "subscribe to the channel"@
    } else if i == 20 {
        "bell icon"@
    } else if i == 21 {
        "see you next time"@
    } else if i == 22 {
        "all rights reserved"@
    } else if i == 23 {
        "http://"@
    } else if i == 24 {
        "https://"@
    } else {
        "www."@
    }
}

fn credit_phrase_exec(i: usize) -> (r: &'static str)
    requires
        i < 26,
    ensures
        r@ == credit_phrase(i as int),
{
    match i {
        0 => "subtitles by",
        1 => "subtitles made by",
        2 => "subtitles created by",
        3 => "subtitled by",
        4 => "captioned by",
        5 => "captions by",
        6 => "closed captions by",
        7 => "translated by",
        8 => "transcribed by",
        9 => "transcript by",
        10 => "reading text in",
        11 => "community contributor",
        12 => "amara.org",
        13 => "opensubtitles",
        14 => "youtube.com",
        15 => "like and subscribe",
        16 => "thanks for watching",
        17 => "thank you for watching",
        18 => "subscribe to my channel",
        19 => "subscribe to the channel",
        20 => "bell icon",
        21 => "see you next time",
        22 => "all rights reserved",
        23 => "http://",
        24 => "https://",
        _ => "www.",
    }
}

/// Phrases of an earlier prompt that recognition can echo back.
pub open spec fn prompt_echo(i: int) -> Seq<char> {
    if i == 0 {
        "sermon transcript"@
    } else if i == 1 {
        "nigerian english"@
    } else if i == 2 {
        "church vocabulary"@
    } else if i == 3 {
        "bible exposition"@
    } else {
        "yoruba interjections"@
    }
}

fn prompt_echo_exec(i: usize) -> (r: &'static str)
    requires
        i < 5,
    ensures
        r@ == prompt_echo(i as int),
{
    match i {
        0 => "sermon transcript",
        1 => "nigerian english",
        2 => "church vocabulary",
        3 => "bible exposition",
        _ => "yoruba interjections",
    }
}

// ---------------------------------------------------------------------------
// Cleaning segment text.
// ---------------------------------------------------------------------------

/// The musical note symbols dropped from segment text.
pub open spec fn music_notes() -> Seq<char> {
    seq!['♪', '♫', '♬', '♩']
}

/// `text` without the `n` characters from `pos` on (both ends clamped).
pub open spec fn cut(text: Seq<char>, pos: int, n: int) -> Seq<char> {
    clamp_slice(text, 0, pos) + clamp_slice(text, pos + n, text.len() as int)
}

/// Removes, again and again, the first place where the lowercase text shows `tag`.
pub open spec fn strip_tag(text: Seq<char>, tag: Seq<char>) -> Seq<char>
    decreases text.len(),
{
    match find_seq(lowercase_of(text), tag) {
        None => text,
        Some(pos) => {
            let t2 = cut(text, pos, tag.len() as int);
            if t2.len() < text.len() {
                strip_tag(t2, tag)
            } else {
                t2
            }
        },
    }
}

/// The sound tags from `k` on stripped in turn.
pub open spec fn strip_tags_from(text: Seq<char>, k: int) -> Seq<char>
    decreases 12 - k,
{
    if k < 0 || k >= 12 {
        text
    } else {
        strip_tags_from(strip_tag(text, sound_tag(k)), k + 1)
    }
}

/// A segment's text cleaned of musical notes and bracketed sound tags, trimmed.
pub open spec fn clean_text_spec(raw: Seq<char>) -> Seq<char> {
    trim_seq(strip_tags_from(drop_chars(trim_seq(raw), music_notes()), 0))
}

/// Every character of `a` occurs in `b`.
pub open spec fn chars_within(a: Seq<char>, b: Seq<char>) -> bool {
    forall|i: int| 0 <= i < a.len() ==> b.contains(#[trigger] a[i])
}

/// The text neither starts nor ends with white space.
pub open spec fn trimmed(t: Seq<char>) -> bool {
    t.len() > 0 ==> !unicode_whitespace(t[0]) && !unicode_whitespace(t.last())
}

proof fn lemma_trim_trimmed(s: Seq<char>)
    ensures
        trimmed(trim_seq(s)),
        chars_within(trim_seq(s), s),
{
    lemma_lead_from(s, ws(), 0);
    let a = trim_start_seq(s);
    let la = lead_from(s, ws(), 0) as int;
    lemma_trail_from(a, ws(), a.len() as int);
    let b = trim_end_seq(a);
    let tb = trail_from(a, ws(), a.len() as int) as int;
    if b.len() > 0 {
        assert(b[0] == a[0] && a[0] == s[la]);
        assert(!ws()(s[la]));
        assert(b.last() == a[a.len() - tb - 1]);
        assert(!ws()(a[a.len() - tb - 1]));
    }
    assert forall|i: int| 0 <= i < b.len() implies s.contains(#[trigger] b[i]) by {
        assert(b[i] == s[la + i]);
    }
}

proof fn lemma_cut_within(text: Seq<char>, pos: int, n: int)
    ensures
        chars_within(cut(text, pos, n), text),
{
    let a = clamp_slice(text, 0, pos);
    let b = clamp_slice(text, pos + n, text.len() as int);
    let c = cut(text, pos, n);
    let a2 = if pos < 0 { 0 } else if pos > text.len() { text.len() as int } else { pos };
    let b0 = pos + n;
    let a3 = if b0 < 0 { 0 } else if b0 > text.len() { text.len() as int } else { b0 };
    assert forall|i: int| 0 <= i < c.len() implies text.contains(#[trigger] c[i]) by {
        if i < a.len() {
            assert(c[i] == text[i]);
        } else {
            assert(c[i] == b[i - a.len()]);
            assert(b[i - a.len()] == text[a3 + i - a.len()]);
        }
    }
}

proof fn lemma_strip_tag_within(text: Seq<char>, tag: Seq<char>)
    ensures
        chars_within(strip_tag(text, tag), text),
    decreases text.len(),
{
    match find_seq(lowercase_of(text), tag) {
        None => {
            assert forall|i: int| 0 <= i < text.len() implies text.contains(#[trigger] text[i]) by {}
        },
        Some(pos) => {
            let t2 = cut(text, pos, tag.len() as int);
            lemma_cut_within(text, pos, tag.len() as int);
            if t2.len() < text.len() {
                lemma_strip_tag_within(t2, tag);
                let r = strip_tag(t2, tag);
                assert forall|i: int| 0 <= i < r.len() implies text.contains(#[trigger] r[i]) by {
                    assert(t2.contains(r[i]));
                    let j = choose|j: int| 0 <= j < t2.len() && t2[j] == r[i];
                    assert(text.contains(t2[j]));
                }
            }
        },
    }
}

proof fn lemma_strip_tags_within(text: Seq<char>, k: int)
    ensures
        chars_within(strip_tags_from(text, k), text),
    decreases 12 - k,
{
    if 0 <= k < 12 {
        let t = strip_tag(text, sound_tag(k));
        lemma_strip_tag_within(text, sound_tag(k));
        lemma_strip_tags_within(t, k + 1);
        let r = strip_tags_from(t, k + 1);
        assert forall|i: int| 0 <= i < r.len() implies text.contains(#[trigger] r[i]) by {
            assert(t.contains(r[i]));
            let j = choose|j: int| 0 <= j < t.len() && t[j] == r[i];
            assert(text.contains(t[j]));
        }
    } else {
        assert forall|i: int| 0 <= i < text.len() implies text.contains(#[trigger] text[i]) by {}
    }
}

proof fn lemma_drop_chars_free(s: Seq<char>, set: Seq<char>)
    ensures
        forall|i: int| 0 <= i < drop_chars(s, set).len() ==> !set.contains(#[trigger] drop_chars(s, set)[i]),
    decreases s.len(),
{
    if s.len() > 0 {
        lemma_drop_chars_free(s.drop_last(), set);
        let d = drop_chars(s.drop_last(), set);
        if !set.contains(s.last()) {
            assert forall|i: int| 0 <= i < d.push(s.last()).len() implies !set.contains(
                #[trigger] d.push(s.last())[i],
            ) by {
                if i < d.len() {
                    assert(d.push(s.last())[i] == d[i]);
                }
            }
        }
    }
}

/// A cleaned segment text is trimmed at both ends and holds no musical note symbol.
pub proof fn lemma_clean_text_tidy(raw: Seq<char>)
    ensures
        trimmed(clean_text_spec(raw)),
        forall|i: int|
            0 <= i < clean_text_spec(raw).len() ==> !music_notes().contains(
                #[trigger] clean_text_spec(raw)[i],
            ),
{
    let d = drop_chars(trim_seq(raw), music_notes());
    lemma_drop_chars_free(trim_seq(raw), music_notes());
    let st = strip_tags_from(d, 0);
    lemma_strip_tags_within(d, 0);
    let r = clean_text_spec(raw);
    lemma_trim_trimmed(st);
    assert forall|i: int| 0 <= i < r.len() implies !music_notes().contains(#[trigger] r[i]) by {
        assert(st.contains(r[i]));
        let j = choose|j: int| 0 <= j < st.len() && st[j] == r[i];
        assert(d.contains(st[j]));
        let m = choose|m: int| 0 <= m < d.len() && d[m] == st[j];
        assert(!music_notes().contains(d[m]));
    }
}

fn cut_exec(text: &Vec<char>, pos: usize, n: usize) -> (r: Vec<char>)
    ensures
        r@ == cut(text@, pos as int, n as int),
{
    let mut r = clamp_slice_exec(text, 0, pos);
    let end = if pos <= usize::MAX - n {
        pos + n
    } else {
        usize::MAX
    };
    let rest = clamp_slice_exec(text, end, text.len());
    assert(clamp_slice(text@, end as int, text@.len() as int) =~= clamp_slice(
        text@,
        pos + n,
        text@.len() as int,
    ));
    push_all(&mut r, &rest);
    r
}

fn strip_tag_exec(text: Vec<char>, tag: &Vec<char>) -> (r: Vec<char>)
    ensures
        r@ == strip_tag(text@, tag@),
{
    let mut t = text;
    loop
        invariant
            strip_tag(text@, tag@) == strip_tag(t@, tag@),
        decreases t@.len(),
    {
        let lower = chars_of(&to_lowercase(&string_of(&t)));
        match find(&lower, tag) {
            None => {
                return t;
            },
            Some(pos) => {
                let t2 = cut_exec(&t, pos, tag.len());
                if t2.len() < t.len() {
                    t = t2;
                } else {
                    return t2;
                }
            },
        }
    }
}

/// Cleans a recognised segment: trims it, drops musical notes, removes bracketed sound tags
/// such as "[Music]" or "(applause)" in any letter case, and trims again.
pub fn clean_segment_text(raw: &str) -> (r: String)
    ensures
        r@ == clean_text_spec(raw@),
{
    let t0 = trim(&chars_of(raw));
    let notes = vec!['♪', '♫', '♬', '♩'];
    assert(notes@ =~= music_notes());
    let mut t = remove_chars(&t0, &notes);
    let mut k: usize = 0;
    while k < 12
        invariant
            k <= 12,
            strip_tags_from(drop_chars(t0@, music_notes()), 0) == strip_tags_from(t@, k as int),
        decreases 12 - k,
    {
        let tag = chars_of(sound_tag_exec(k));
        t = strip_tag_exec(t, &tag);
        k += 1;
    }
    string_of(&trim(&t))
}

// ---------------------------------------------------------------------------
// Recognising non-speech and invented text.
// ---------------------------------------------------------------------------

/// The symbols that, once removed, leave nothing of a non-speech segment.
pub open spec fn symbol_chars() -> Seq<char> {
    seq!['♪', '♫', '♬', '♩', '*', '#', '-', '_', '~', ' ']
}

pub open spec fn sound_word_table() -> spec_fn(int) -> Seq<char> {
    |i: int| sound_word(i)
}

pub open spec fn credit_table() -> spec_fn(int) -> Seq<char> {
    |i: int| credit_phrase(i)
}

pub open spec fn echo_table() -> spec_fn(int) -> Seq<char> {
    |i: int| prompt_echo(i)
}

pub open spec fn non_alnum() -> spec_fn(char) -> bool {
    |c: char| !unicode_alphanumeric(c)
}

/// `str::trim_matches(|c| !c.is_alphanumeric())`.
pub open spec fn trim_non_alnum(s: Seq<char>) -> Seq<char> {
    let t = s.skip(lead_from(s, non_alnum(), 0) as int);
    t.take(t.len() - trail_from(t, non_alnum(), t.len() as int))
}

/// The words with surrounding punctuation trimmed off, the empty ones dropped.
pub open spec fn clean_words(ws: Seq<Seq<char>>) -> Seq<Seq<char>>
    decreases ws.len(),
{
    if ws.len() == 0 {
        seq![]
    } else {
        let r = clean_words(ws.drop_last());
        let t = trim_non_alnum(ws.last());
        if t.len() > 0 {
            r.push(t)
        } else {
            r
        }
    }
}

pub open spec fn lower_words(ws: Seq<Seq<char>>) -> Seq<Seq<char>> {
    ws.map_values(|w: Seq<char>| lowercase_of(w))
}

/// How many times `w` occurs in `ws`.
pub open spec fn count_in(ws: Seq<Seq<char>>, w: Seq<char>) -> nat
    decreases ws.len(),
{
    if ws.len() == 0 {
        0
    } else {
        count_in(ws.drop_last(), w) + if ws.last() == w {
            1nat
        } else {
            0nat
        }
    }
}

/// The largest number of occurrences of one of the words from index `i` on.
pub open spec fn max_count_from(ws: Seq<Seq<char>>, i: int) -> nat
    decreases ws.len() - i,
{
    if i < 0 || i >= ws.len() {
        0
    } else {
        let a = count_in(ws, ws[i]);
        let b = max_count_from(ws, i + 1);
        if a >= b {
            a
        } else {
            b
        }
    }
}

/// How many different words there are.
pub open spec fn distinct_count(ws: Seq<Seq<char>>) -> nat
    decreases ws.len(),
{
    if ws.len() == 0 {
        0
    } else {
        distinct_count(ws.drop_last()) + if ws.drop_last().contains(ws.last()) {
            0nat
        } else {
            1nat
        }
    }
}

/// Whether, stepping two words at a time from `i`, a two-word phrase repeats so that
/// `count` reaches three consecutive occurrences.
pub open spec fn bigram_repeats(ws: Seq<Seq<char>>, i: int, count: int) -> bool
    decreases ws.len() - i,
{
    if i < 0 || i + 3 >= ws.len() {
        false
    } else if ws[i] == ws[i + 2] && ws[i + 1] == ws[i + 3] {
        if count + 1 >= 3 {
            true
        } else {
            bigram_repeats(ws, i + 2, count + 1)
        }
    } else {
        bigram_repeats(ws, i + 2, 1)
    }
}

pub open spec fn is_vowel(c: char) -> bool {
    c == 'a' || c == 'e' || c == 'i' || c == 'o' || c == 'u' || c == 'y' || c == 'A' || c == 'E'
        || c == 'I' || c == 'O' || c == 'U' || c == 'Y'
}

pub open spec fn has_vowel(w: Seq<char>) -> bool {
    exists|k: int| 0 <= k < w.len() && is_vowel(#[trigger] w[k])
}

pub open spec fn caps_word(w: Seq<char>) -> bool {
    forall|k: int| 0 <= k < w.len() ==> unicode_uppercase(#[trigger] w[k]) || unicode_numeric(w[k])
}

/// How many words satisfy `p`.
pub open spec fn count_where(ws: Seq<Seq<char>>, p: spec_fn(Seq<char>) -> bool) -> nat
    decreases ws.len(),
{
    if ws.len() == 0 {
        0
    } else {
        count_where(ws.drop_last(), p) + if p(ws.last()) {
            1nat
        } else {
            0nat
        }
    }
}

/// A word of at least two bytes.
pub open spec fn long_word() -> spec_fn(Seq<char>) -> bool {
    |w: Seq<char>| byte_len(w) >= 2
}

pub open spec fn voiceless_word() -> spec_fn(Seq<char>) -> bool {
    |w: Seq<char>| byte_len(w) >= 2 && !has_vowel(w)
}

pub open spec fn acronym_word() -> spec_fn(Seq<char>) -> bool {
    |w: Seq<char>| byte_len(w) >= 2 && caps_word(w)
}

/// The recognizer's own confidence figures, in millionths, reject the segment: no-speech
/// probability above 0.60, or above 0.35 with an average log-probability below -0.80;
/// compression ratio above 2.2; average log-probability below -1.40.
pub open spec fn confidence_rejects(nsp: Option<i64>, cr: Option<i64>, lp: Option<i64>) -> bool {
    let lp0: i64 = match lp {
        Some(l) => l,
        None => 0,
    };
    (nsp matches Some(n) && (n > 600000 || (n > 350000 && lp0 < -800000)))
        || (cr matches Some(c) && c > 2200000) || (lp matches Some(l) && l < -1400000)
}

/// The lowercase text is a bracketed tag naming a sound, or an empty one.
pub open spec fn sound_bracket(lower: Seq<char>) -> bool {
    &&& ((starts_with_seq(lower, seq!['[']) && ends_with_seq(lower, seq![']'])) || (
    starts_with_seq(lower, seq!['(']) && ends_with_seq(lower, seq![')'])))
    &&& lower.len() >= 2
    &&& {
        let inner = trim_seq(lower.subrange(1, lower.len() - 1));
        inner.len() == 0 || contains_any(inner, sound_word_table(), 8, 0)
    }
}

/// Degenerate repetition in the lowercase words: one word making at least 70% of at least
/// three words (four times or more), a two-word phrase three times running, or under 35%
/// different words among six or more.
pub open spec fn repetition_rejects(lw: Seq<Seq<char>>) -> bool {
    let n = lw.len();
    let m = max_count_from(lw, 0);
    n >= 3 && ((m >= 4 && m * 100 >= 70 * n) || (n >= 6 && bigram_repeats(lw, 0, 1)) || (n >= 6
        && distinct_count(lw) * 100 < 35 * n))
}

/// Letter salad among four or more words: at least 30% of the longer words without a vowel
/// (three or more longer words), or at least 65% of them all capitals and digits (four or
/// more longer words).
pub open spec fn gibberish_rejects(ws: Seq<Seq<char>>) -> bool {
    let nsl = count_where(ws, long_word());
    let nv = count_where(ws, voiceless_word());
    let caps = count_where(ws, acronym_word());
    ws.len() >= 4 && ((nsl >= 3 && nv * 100 >= 30 * nsl) || (nsl >= 4 && caps * 100 >= 65 * nsl))
}

/// Whether a recognised segment is silence, music, a sound tag, invented credits, an echo of
/// a prompt, a repetition loop or letter salad rather than speech.
pub open spec fn hallucination_spec(
    text: Seq<char>,
    nsp: Option<i64>,
    cr: Option<i64>,
    lp: Option<i64>,
) -> bool {
    let trimmed = trim_seq(text);
    let lower = lowercase_of(trimmed);
    let ws = clean_words(words_seq(trimmed));
    ||| trimmed.len() == 0
    ||| confidence_rejects(nsp, cr, lp)
    ||| trim_seq(drop_chars(lower, symbol_chars())).len() == 0
    ||| sound_bracket(lower)
    ||| contains_any(lower, credit_table(), 26, 0)
    ||| contains_any(lower, echo_table(), 5, 0)
    ||| repetition_rejects(lower_words(ws))
    ||| gibberish_rejects(ws)
}

fn sound_word_any(h: &Vec<char>) -> (r: bool)
    ensures
        r == contains_any(h@, sound_word_table(), 8, 0),
{
    let mut i: usize = 0;
    while i < 8
        invariant
            i <= 8,
            contains_any(h@, sound_word_table(), 8, 0) == contains_any(h@, sound_word_table(), 8, i as int),
        decreases 8 - i,
    {
        if contains(h, &chars_of(sound_word_exec(i))) {
            return true;
        }
        i += 1;
    }
    false
}

fn credit_any(h: &Vec<char>) -> (r: bool)
    ensures
        r == contains_any(h@, credit_table(), 26, 0),
{
    let mut i: usize = 0;
    while i < 26
        invariant
            i <= 26,
            contains_any(h@, credit_table(), 26, 0) == contains_any(h@, credit_table(), 26, i as int),
        decreases 26 - i,
    {
        if contains(h, &chars_of(credit_phrase_exec(i))) {
            return true;
        }
        i += 1;
    }
    false
}

fn echo_any(h: &Vec<char>) -> (r: bool)
    ensures
        r == contains_any(h@, echo_table(), 5, 0),
{
    let mut i: usize = 0;
    while i < 5
        invariant
            i <= 5,
            contains_any(h@, echo_table(), 5, 0) == contains_any(h@, echo_table(), 5, i as int),
        decreases 5 - i,
    {
        if contains(h, &chars_of(prompt_echo_exec(i))) {
            return true;
        }
        i += 1;
    }
    false
}

fn trim_non_alnum_exec(s: &Vec<char>) -> (r: Vec<char>)
    ensures
        r@ == trim_non_alnum(s@),
{
    let mut a: usize = 0;
    while a < s.len() && !is_alphanumeric(s[a])
        invariant
            a <= s@.len(),
            lead_from(s@, non_alnum(), 0) == a + lead_from(s@, non_alnum(), a as int),
        decreases s@.len() - a,
    {
        a += 1;
    }
    proof {
        lemma_lead_from(s@, non_alnum(), 0);
    }
    let t = copy_range(s, a, s.len());
    assert(t@ =~= s@.skip(a as int));
    let mut b: usize = t.len();
    while b > 0 && !is_alphanumeric(t[b - 1])
        invariant
            b <= t@.len(),
            trail_from(t@, non_alnum(), t@.len() as int) == (t@.len() - b) + trail_from(
                t@,
                non_alnum(),
                b as int,
            ),
        decreases b,
    {
        b -= 1;
    }
    proof {
        lemma_trail_from(t@, non_alnum(), t@.len() as int);
    }
    let r = copy_range(&t, 0, b);
    assert(r@ =~= t@.take(b as int));
    r
}

fn clean_words_exec(trimmed: &Vec<char>) -> (r: Vec<Vec<char>>)
    ensures
        views(r@) == clean_words(words_seq(trimmed@)),
{
    let ws = words(trimmed);
    let ghost wv = views(ws@);
    let mut out: Vec<Vec<char>> = Vec::new();
    let mut i: usize = 0;
    while i < ws.len()
        invariant
            i <= ws@.len(),
            wv == views(ws@),
            wv == words_seq(trimmed@),
            views(out@) == clean_words(wv.take(i as int)),
        decreases ws@.len() - i,
    {
        assert(wv.take(i + 1).drop_last() =~= wv.take(i as int));
        assert(wv.take(i + 1).last() == ws@[i as int]@);
        let t = trim_non_alnum_exec(&ws[i]);
        if t.len() > 0 {
            let ghost before = views(out@);
            out.push(t);
            assert(views(out@) =~= before.push(t@));
        }
        i += 1;
    }
    assert(wv.take(ws@.len() as int) =~= wv);
    out
}

fn lower_words_exec(ws: &Vec<Vec<char>>) -> (r: Vec<Vec<char>>)
    ensures
        views(r@) == lower_words(views(ws@)),
{
    let mut out: Vec<Vec<char>> = Vec::new();
    let mut i: usize = 0;
    while i < ws.len()
        invariant
            i <= ws@.len(),
            views(out@) == lower_words(views(ws@)).take(i as int),
        decreases ws@.len() - i,
    {
        let l = chars_of(&to_lowercase(&string_of(&ws[i])));
        let ghost before = views(out@);
        out.push(l);
        proof {
            let lw = lower_words(views(ws@));
            assert(lw[i as int] == lowercase_of(ws@[i as int]@));
            assert(views(out@) =~= before.push(l@));
            assert(lw.take(i + 1) =~= lw.take(i as int).push(lw[i as int]));
        }
        i += 1;
    }
    assert(lower_words(views(ws@)).take(ws@.len() as int) =~= lower_words(views(ws@)));
    out
}

pub(crate) fn count_in_exec(ws: &Vec<Vec<char>>, w: &Vec<char>) -> (r: usize)
    ensures
        r == count_in(views(ws@), w@),
        r <= ws@.len(),
{
    let ghost wv = views(ws@);
    let mut c: usize = 0;
    let mut i: usize = 0;
    while i < ws.len()
        invariant
            i <= ws@.len(),
            wv == views(ws@),
            c <= i,
            c == count_in(wv.take(i as int), w@),
        decreases ws@.len() - i,
    {
        assert(wv.take(i + 1).drop_last() =~= wv.take(i as int));
        assert(wv.take(i + 1).last() == ws@[i as int]@);
        if same_chars(&ws[i], w) {
            c += 1;
        }
        i += 1;
    }
    assert(wv.take(ws@.len() as int) =~= wv);
    c
}

fn max_count_exec(ws: &Vec<Vec<char>>) -> (r: usize)
    ensures
        r == max_count_from(views(ws@), 0),
        r <= ws@.len(),
{
    let ghost wv = views(ws@);
    let mut m: usize = 0;
    let mut i: usize = ws.len();
    while i > 0
        invariant
            i <= ws@.len(),
            wv == views(ws@),
            m <= ws@.len(),
            m == max_count_from(wv, i as int),
        decreases i,
    {
        i -= 1;
        let a = count_in_exec(ws, &ws[i]);
        assert(wv[i as int] == ws@[i as int]@);
        if a >= m {
            m = a;
        }
    }
    m
}

fn distinct_exec(ws: &Vec<Vec<char>>) -> (r: usize)
    ensures
        r == distinct_count(views(ws@)),
        r <= ws@.len(),
{
    let ghost wv = views(ws@);
    let mut d: usize = 0;
    let mut i: usize = 0;
    while i < ws.len()
        invariant
            i <= ws@.len(),
            wv == views(ws@),
            d <= i,
            d == distinct_count(wv.take(i as int)),
        decreases ws@.len() - i,
    {
        let mut found = false;
        let mut j: usize = 0;
        while j < i
            invariant
                j <= i < ws@.len(),
                wv == views(ws@),
                found == (exists|k: int| 0 <= k < j && wv[k] == wv[i as int]),
            decreases i - j,
        {
            assert(wv[j as int] == ws@[j as int]@ && wv[i as int] == ws@[i as int]@);
            if same_chars(&ws[j], &ws[i]) {
                found = true;
            }
            j += 1;
        }
        let ghost p = wv.take(i as int);
        assert(wv.take(i + 1).drop_last() =~= p);
        assert(wv.take(i + 1).last() == wv[i as int]);
        proof {
            if found {
                let k = choose|k: int| 0 <= k < i && wv[k] == wv[i as int];
                assert(p[k] == wv[i as int]);
            } else {
                assert forall|k: int| 0 <= k < p.len() implies p[k] != wv[i as int] by {
                    assert(p[k] == wv[k]);
                }
            }
        }
        if !found {
            d += 1;
        }
        i += 1;
    }
    assert(wv.take(ws@.len() as int) =~= wv);
    d
}

fn bigram_exec(ws: &Vec<Vec<char>>) -> (r: bool)
    ensures
        r == bigram_repeats(views(ws@), 0, 1),
{
    let ghost wv = views(ws@);
    let mut i: usize = 0;
    let mut count: usize = 1;
    while i < ws.len() && ws.len() - i > 3
        invariant
            wv == views(ws@),
            1 <= count <= 2,
            i <= ws@.len(),
            bigram_repeats(wv, 0, 1) == bigram_repeats(wv, i as int, count as int),
        decreases ws@.len() - i,
    {
        assert(wv[i as int] == ws@[i as int]@ && wv[i + 1] == ws@[i + 1]@ && wv[i + 2]
            == ws@[i + 2]@ && wv[i + 3] == ws@[i + 3]@);
        if same_chars(&ws[i], &ws[i + 2]) && same_chars(&ws[i + 1], &ws[i + 3]) {
            if count + 1 >= 3 {
                return true;
            }
            count += 1;
        } else {
            count = 1;
        }
        i += 2;
    }
    false
}

fn has_vowel_exec(w: &Vec<char>) -> (r: bool)
    ensures
        r == has_vowel(w@),
{
    let mut k: usize = 0;
    while k < w.len()
        invariant
            k <= w@.len(),
            forall|j: int| 0 <= j < k ==> !is_vowel(#[trigger] w@[j]),
        decreases w@.len() - k,
    {
        let c = w[k];
        if c == 'a' || c == 'e' || c == 'i' || c == 'o' || c == 'u' || c == 'y' || c == 'A' || c
            == 'E' || c == 'I' || c == 'O' || c == 'U' || c == 'Y' {
            assert(is_vowel(w@[k as int]));
            return true;
        }
        k += 1;
    }
    false
}

fn caps_word_exec(w: &Vec<char>) -> (r: bool)
    ensures
        r == caps_word(w@),
{
    let mut k: usize = 0;
    while k < w.len()
        invariant
            k <= w@.len(),
            forall|j: int|
                0 <= j < k ==> unicode_uppercase(#[trigger] w@[j]) || unicode_numeric(w@[j]),
        decreases w@.len() - k,
    {
        if !(is_uppercase(w[k]) || is_numeric(w[k])) {
            return false;
        }
        k += 1;
    }
    true
}

fn gibberish_exec(ws: &Vec<Vec<char>>) -> (r: bool)
    ensures
        r == gibberish_rejects(views(ws@)),
{
    let ghost wv = views(ws@);
    let mut nsl: usize = 0;
    let mut nv: usize = 0;
    let mut caps: usize = 0;
    let mut i: usize = 0;
    while i < ws.len()
        invariant
            i <= ws@.len(),
            wv == views(ws@),
            nsl <= i && nv <= i && caps <= i,
            nsl == count_where(wv.take(i as int), long_word()),
            nv == count_where(wv.take(i as int), voiceless_word()),
            caps == count_where(wv.take(i as int), acronym_word()),
        decreases ws@.len() - i,
    {
        assert(wv.take(i + 1).drop_last() =~= wv.take(i as int));
        assert(wv.take(i + 1).last() == ws@[i as int]@);
        let long = utf8_byte_len(&ws[i]) >= 2;
        if long {
            nsl += 1;
            if !has_vowel_exec(&ws[i]) {
                nv += 1;
            }
            if caps_word_exec(&ws[i]) {
                caps += 1;
            }
        }
        i += 1;
    }
    assert(wv.take(ws@.len() as int) =~= wv);
    let n = ws.len() as u128;
    let nsl = nsl as u128;
    let nv = nv as u128;
    let caps = caps as u128;
    n >= 4 && ((nsl >= 3 && nv * 100 >= 30 * nsl) || (nsl >= 4 && caps * 100 >= 65 * nsl))
}

fn repetition_exec(lw: &Vec<Vec<char>>) -> (r: bool)
    ensures
        r == repetition_rejects(views(lw@)),
{
    let n = lw.len();
    if n < 3 {
        return false;
    }
    let m = max_count_exec(lw) as u128;
    let nn = n as u128;
    if m >= 4 && m * 100 >= 70 * nn {
        return true;
    }
    if n >= 6 && bigram_exec(lw) {
        return true;
    }
    if n >= 6 {
        let d = distinct_exec(lw) as u128;
        if d * 100 < 35 * nn {
            return true;
        }
    }
    false
}

proof fn lemma_first_last(s: Seq<char>, c: char)
    requires
        s.len() >= 1,
    ensures
        starts_with_seq(s, seq![c]) <==> s[0] == c,
        ends_with_seq(s, seq![c]) <==> s[s.len() - 1] == c,
{
    if s[0] == c {
        assert(s.take(1) =~= seq![c]);
    } else {
        assert(s.take(1)[0] != seq![c][0]);
    }
    if s[s.len() - 1] == c {
        assert(s.skip(s.len() - 1) =~= seq![c]);
    } else {
        assert(s.skip(s.len() - 1)[0] != seq![c][0]);
    }
}

fn sound_bracket_exec(lower: &Vec<char>) -> (r: bool)
    ensures
        r == sound_bracket(lower@),
{
    let n = lower.len();
    if n < 2 {
        return false;
    }
    let (f, l) = (lower[0], lower[n - 1]);
    proof {
        lemma_first_last(lower@, '[');
        lemma_first_last(lower@, '(');
        lemma_first_last(lower@, ']');
        lemma_first_last(lower@, ')');
    }
    if !((f == '[' && l == ']') || (f == '(' && l == ')')) {
        return false;
    }
    let inner = trim(&copy_range(lower, 1, n - 1));
    inner.len() == 0 || sound_word_any(&inner)
}

/// Whether a recognised segment is silence, music, a sound tag, invented credits, an echo of
/// a prompt, a repetition loop or letter salad rather than speech. The recognizer's
/// no-speech probability, compression ratio and average log-probability are given in
/// millionths where it reported them.
pub fn is_hallucination_or_music(
    text: &str,
    no_speech_prob: Option<i64>,
    compression_ratio: Option<i64>,
    avg_logprob: Option<i64>,
) -> (r: bool)
    ensures
        r == hallucination_spec(text@, no_speech_prob, compression_ratio, avg_logprob),
{
    let trimmed = trim(&chars_of(text));
    if trimmed.len() == 0 {
        return true;
    }
    if let Some(nsp) = no_speech_prob {
        if nsp > 600000 {
            return true;
        }
        let lp0: i64 = match avg_logprob {
            Some(l) => l,
            None => 0,
        };
        if nsp > 350000 && lp0 < -800000 {
            return true;
        }
    }
    if let Some(cr) = compression_ratio {
        if cr > 2200000 {
            return true;
        }
    }
    if let Some(lp) = avg_logprob {
        if lp < -1400000 {
            return true;
        }
    }
    let lower = chars_of(&to_lowercase(&string_of(&trimmed)));
    let symbols = vec!['♪', '♫', '♬', '♩', '*', '#', '-', '_', '~', ' '];
    assert(symbols@ =~= symbol_chars());
    if trim(&remove_chars(&lower, &symbols)).len() == 0 {
        return true;
    }
    if sound_bracket_exec(&lower) {
        return true;
    }
    if credit_any(&lower) || echo_any(&lower) {
        return true;
    }
    let ws = clean_words_exec(&trimmed);
    let lw = lower_words_exec(&ws);
    repetition_exec(&lw) || gibberish_exec(&ws)
}


// ---------------------------------------------------------------------------
// Segments returned by the recognizer.
// ---------------------------------------------------------------------------

/// A segment as the recognizer returned it, times in milliseconds from the start of the
/// audio it was given, confidence figures in millionths where reported.
#[derive(Debug, Clone)]
pub struct RecognizedSegment {
    pub start_ms: u64,
    pub end_ms: u64,
    pub text: String,
    pub no_speech_prob: Option<i64>,
    pub compression_ratio: Option<i64>,
    pub avg_logprob: Option<i64>,
}

/// `a + b`, saturating at `u64::MAX`.
pub open spec fn sat_add(a: u64, b: u64) -> nat {
    if a + b > u64::MAX {
        u64::MAX as nat
    } else {
        (a + b) as nat
    }
}

/// The transcript segments kept from what the recognizer returned for audio that starts
/// `offset` into the recording: non-speech is dropped, the rest shifted and cleaned, empty
/// text dropped.
pub open spec fn kept_segments(segs: Seq<RecognizedSegment>, offset: u64) -> Seq<(nat, nat, Seq<char>)>
    decreases segs.len(),
{
    if segs.len() == 0 {
        seq![]
    } else {
        let r = kept_segments(segs.drop_last(), offset);
        let s = segs.last();
        let t = clean_text_spec(s.text@);
        if hallucination_spec(s.text@, s.no_speech_prob, s.compression_ratio, s.avg_logprob)
            || t.len() == 0 {
            r
        } else {
            r.push((sat_add(s.start_ms, offset), sat_add(s.end_ms, offset), t))
        }
    }
}

/// Keeps the speech among recognised segments, shifted by the chunk's offset into the
/// recording and cleaned.
pub fn collect_recognized_segments(segments: &[RecognizedSegment], offset_ms: u64) -> (r: Vec<
    TranscriptSegment,
>)
    ensures
        segs_view(r@) == kept_segments(segments@, offset_ms),
{
    let mut out: Vec<TranscriptSegment> = Vec::new();
    let mut i: usize = 0;
    while i < segments.len()
        invariant
            i <= segments@.len(),
            segs_view(out@) == kept_segments(segments@.take(i as int), offset_ms),
        decreases segments@.len() - i,
    {
        assert(segments@.take(i + 1).drop_last() =~= segments@.take(i as int));
        assert(segments@.take(i + 1).last() == segments@[i as int]);
        let s = &segments[i];
        if !is_hallucination_or_music(s.text.as_str(), s.no_speech_prob, s.compression_ratio, s.avg_logprob) {
            let text = clean_segment_text(s.text.as_str());
            if text.as_str().unicode_len() > 0 {
                let ghost before = segs_view(out@);
                out.push(
                    TranscriptSegment {
                        start_ms: s.start_ms.saturating_add(offset_ms),
                        end_ms: s.end_ms.saturating_add(offset_ms),
                        text,
                    },
                );
                assert(segs_view(out@) =~= before.push(seg_view(out@.last())));
            }
        }
        i += 1;
    }
    assert(segments@.take(segments@.len() as int) =~= segments@);
    out
}

/// The single segment made of a whole recognised text that came without segments: it spans
/// the chunk from its offset for `duration_ms`, unless it is non-speech or cleans to nothing.
pub fn whole_text_segment(text: &str, offset_ms: u64, duration_ms: u64) -> (r: Option<
    TranscriptSegment,
>)
    ensures
        r is Some <==> !hallucination_spec(text@, None, None, None) && clean_text_spec(text@).len()
            > 0,
        r matches Some(s) ==> s.start_ms == offset_ms && s.end_ms == sat_add(offset_ms, duration_ms)
            && s.text@ == clean_text_spec(text@),
{
    if is_hallucination_or_music(text, None, None, None) {
        return None;
    }
    let clean = clean_segment_text(text);
    if clean.as_str().unicode_len() == 0 {
        return None;
    }
    Some(
        TranscriptSegment {
            start_ms: offset_ms,
            end_ms: offset_ms.saturating_add(duration_ms),
            text: clean,
        },
    )
}

/// What to do after a failed transcription request: `Some(seconds)` to wait and try again,
/// `None` to give up. `status` is the HTTP status, or `None` for a network failure;
/// rate limiting (429) and server errors (5xx) are retried, as is a network failure, while
/// attempts remain; the wait doubles with each attempt.
pub open spec fn retry_spec(status: Option<u16>, attempt: u32, max_retries: u32) -> Option<nat> {
    let retryable = match status {
        Some(c) => c == 429 || (500 <= c <= 599),
        None => true,
    };
    if retryable && attempt < max_retries && attempt < 64 {
        Some(vstd::arithmetic::power2::pow2(attempt as nat))
    } else {
        None
    }
}

/// Decides whether a failed transcription request is tried again, and after how long.
pub fn retry_delay_secs(status: Option<u16>, attempt: u32, max_retries: u32) -> (r: Option<u64>)
    ensures
        match r {
            Some(d) => retry_spec(status, attempt, max_retries) == Some(d as nat),
            None => retry_spec(status, attempt, max_retries) is None,
        },
{
    let retryable = match status {
        Some(c) => c == 429 || (500 <= c && c <= 599),
        None => true,
    };
    if retryable && attempt < max_retries && attempt < 64 {
        let mut d: u64 = 1;
        let mut k: u32 = 0;
        proof {
            vstd::arithmetic::power2::lemma2_to64();
        }
        while k < attempt
            invariant
                k <= attempt < 64,
                d as nat == vstd::arithmetic::power2::pow2(k as nat),
            decreases attempt - k,
        {
            proof {
                vstd::arithmetic::power2::lemma2_to64();
                vstd::arithmetic::power2::lemma2_to64_rest();
                vstd::arithmetic::power2::lemma_pow2_unfold((k + 1) as nat);
                if k + 1 < 63 {
                    vstd::arithmetic::power2::lemma_pow2_strictly_increases((k + 1) as nat, 63);
                }
                assert(d as nat * 2 == vstd::arithmetic::power2::pow2((k + 1) as nat));
                assert(vstd::arithmetic::power2::pow2((k + 1) as nat)
                    <= vstd::arithmetic::power2::pow2(63));
            }
            d = d * 2;
            k += 1;
        }
        Some(d)
    } else {
        None
    }
}

// ---------------------------------------------------------------------------
// Long recordings: chunks and stitching.
// ---------------------------------------------------------------------------

/// Length of each chunk of a long recording.
pub const CHUNK_DURATION_MS: u64 = 360000;

/// How much consecutive chunks overlap.
pub const CHUNK_OVERLAP_MS: u64 = 4000;

/// The chunks (start, length) of a recording of `total` milliseconds, from `cur` on.
pub open spec fn chunk_plan_from(total: nat, cur: nat) -> Seq<(nat, nat)>
    decreases total + 356000 - cur,
{
    if cur >= total {
        seq![]
    } else {
        let d = if total - cur < 360000 {
            (total - cur) as nat
        } else {
            360000nat
        };
        seq![(cur, d)] + chunk_plan_from(total, cur + 356000)
    }
}

pub open spec fn plan_view(p: Seq<(u64, u64)>) -> Seq<(nat, nat)> {
    p.map_values(|c: (u64, u64)| (c.0 as nat, c.1 as nat))
}

/// Splits a recording of `total_duration_ms` into overlapping chunks (start, length) of at
/// most six minutes, each starting four seconds before the previous one ends.
pub fn chunk_plan(total_duration_ms: u64) -> (r: Vec<(u64, u64)>)
    ensures
        plan_view(r@) == chunk_plan_from(total_duration_ms as nat, 0),
{
    let mut plan: Vec<(u64, u64)> = Vec::new();
    let mut cur: u64 = 0;
    assert(plan_view(plan@) =~= seq![]);
    if total_duration_ms == 0 {
        return plan;
    }
    loop
        invariant
            cur < total_duration_ms,
            chunk_plan_from(total_duration_ms as nat, 0) == plan_view(plan@) + chunk_plan_from(
                total_duration_ms as nat,
                cur as nat,
            ),
        decreases total_duration_ms - cur,
    {
        let d = if total_duration_ms - cur < CHUNK_DURATION_MS {
            total_duration_ms - cur
        } else {
            CHUNK_DURATION_MS
        };
        let ghost before = plan_view(plan@);
        plan.push((cur, d));
        assert(plan_view(plan@) =~= before.push((cur as nat, d as nat)));
        assert(before + chunk_plan_from(total_duration_ms as nat, cur as nat) =~= plan_view(plan@)
            + chunk_plan_from(total_duration_ms as nat, (cur + 356000) as nat));
        if total_duration_ms - cur <= CHUNK_DURATION_MS - CHUNK_OVERLAP_MS {
            assert(plan_view(plan@) + chunk_plan_from(total_duration_ms as nat, (cur + 356000) as nat)
                =~= plan_view(plan@));
            return plan;
        }
        cur = cur + (CHUNK_DURATION_MS - CHUNK_OVERLAP_MS);
    }
}

#[verifier::spinoff_prover]
proof fn lemma_chunk_plan(total: nat, cur: nat)
    ensures
        forall|k: int|
            0 <= k < chunk_plan_from(total, cur).len() ==> #[trigger] chunk_plan_from(total, cur)[k].0
                == cur + 356000 * k && chunk_plan_from(total, cur)[k].1 > 0
                && chunk_plan_from(total, cur)[k].0 + chunk_plan_from(total, cur)[k].1 <= total,
        forall|k: int|
            0 <= k < chunk_plan_from(total, cur).len() - 1 ==> chunk_plan_from(total, cur)[k + 1].0
                < #[trigger] chunk_plan_from(total, cur)[k].0 + chunk_plan_from(total, cur)[k].1,
        chunk_plan_from(total, cur).len() > 0 ==> chunk_plan_from(total, cur).last().0
            + chunk_plan_from(total, cur).last().1 == total,
        (chunk_plan_from(total, cur).len() > 0) == (cur < total),
    decreases total + 356000 - cur,
{
    if cur < total {
        lemma_chunk_plan(total, cur + 356000);
        let p = chunk_plan_from(total, cur);
        let q = chunk_plan_from(total, cur + 356000);
        assert forall|k: int| 1 <= k < p.len() implies p[k] == q[k - 1] by {}
        assert forall|k: int| 0 <= k < p.len() implies #[trigger] p[k].0 == cur + 356000 * k
            && p[k].1 > 0 && p[k].0 + p[k].1 <= total by {
            if k > 0 {
                assert(p[k] == q[k - 1]);
                assert(q[k - 1].0 == cur + 356000 + 356000 * (k - 1));
            }
        }
        assert forall|k: int| 0 <= k < p.len() - 1 implies p[k + 1].0 < #[trigger] p[k].0 + p[k].1 by {
            if k > 0 {
                assert(p[k] == q[k - 1]);
                assert(p[k + 1] == q[k]);
            }
        }
    }
}

/// The chunks of a recording start at zero and follow each other every 5 min 56 s; each is
/// non-empty and inside the recording; each starts before the previous one ends, so no
/// moment is left out; the last ends exactly at the end of the recording; and a recording
/// has chunks if and only if it is not empty.
pub proof fn lemma_chunk_plan_covers(total: nat)
    ensures
        forall|k: int|
            0 <= k < chunk_plan_from(total, 0).len() ==> #[trigger] chunk_plan_from(total, 0)[k].0
                == 356000 * k && chunk_plan_from(total, 0)[k].1 > 0 && chunk_plan_from(total, 0)[k].0
                + chunk_plan_from(total, 0)[k].1 <= total,
        forall|k: int|
            0 <= k < chunk_plan_from(total, 0).len() - 1 ==> chunk_plan_from(total, 0)[k + 1].0
                < #[trigger] chunk_plan_from(total, 0)[k].0 + chunk_plan_from(total, 0)[k].1,
        chunk_plan_from(total, 0).len() > 0 ==> chunk_plan_from(total, 0).last().0
            + chunk_plan_from(total, 0).last().1 == total,
        (chunk_plan_from(total, 0).len() > 0) == (total > 0),
{
    lemma_chunk_plan(total, 0);
}

/// The segments of all chunks, in chunk order.
pub open spec fn chunk_segs_flat(chunks: Seq<(nat, Seq<(nat, nat, Seq<char>)>)>) -> Seq<(nat, nat, Seq<char>)>
    decreases chunks.len(),
{
    if chunks.len() == 0 {
        seq![]
    } else {
        chunk_segs_flat(chunks.drop_last()) + chunks.last().1
    }
}

/// Where a chunk with offset `key` goes among chunks sorted by offset: after those with an
/// offset not above it.
pub open spec fn chunk_insert_pos(s: Seq<(nat, Seq<(nat, nat, Seq<char>)>)>, key: nat, j: int) -> int
    decreases s.len() - j,
{
    if j < 0 || j >= s.len() {
        s.len() as int
    } else if key < s[j].0 {
        j
    } else {
        chunk_insert_pos(s, key, j + 1)
    }
}

/// Stable sort of chunks by offset.
pub open spec fn sort_chunks(s: Seq<(nat, Seq<(nat, nat, Seq<char>)>)>) -> Seq<(nat, Seq<(nat, nat, Seq<char>)>)>
    decreases s.len(),
{
    if s.len() == 0 {
        s
    } else {
        let t = sort_chunks(s.drop_last());
        t.insert(chunk_insert_pos(t, s.last().0, 0), s.last())
    }
}

/// One segment added to the stitched transcript: one that starts within 0.3 s of the end of
/// the last one is dropped if it also ends within 0.3 s of it, and otherwise made to start
/// where the last one ends.
pub open spec fn stitch_step(acc: Seq<(nat, nat, Seq<char>)>, seg: (nat, nat, Seq<char>)) -> Seq<(nat, nat, Seq<char>)> {
    if acc.len() > 0 && seg.0 <= acc.last().1 + 300 {
        if seg.1 <= acc.last().1 + 300 {
            acc
        } else {
            acc.push((acc.last().1, seg.1, seg.2))
        }
    } else {
        acc.push(seg)
    }
}

pub open spec fn stitch_segs(segs: Seq<(nat, nat, Seq<char>)>) -> Seq<(nat, nat, Seq<char>)>
    decreases segs.len(),
{
    if segs.len() == 0 {
        seq![]
    } else {
        stitch_step(stitch_segs(segs.drop_last()), segs.last())
    }
}

pub open spec fn chunks_view(c: Seq<(u64, Vec<TranscriptSegment>)>) -> Seq<(nat, Seq<(nat, nat, Seq<char>)>)> {
    c.map_values(|x: (u64, Vec<TranscriptSegment>)| (x.0 as nat, segs_view(x.1@)))
}

fn chunk_insert_pos_exec(s: &Vec<(u64, Vec<TranscriptSegment>)>, key: u64) -> (j: usize)
    ensures
        j as int == chunk_insert_pos(chunks_view(s@), key as nat, 0),
        j <= s@.len(),
{
    let ghost cv = chunks_view(s@);
    let mut j: usize = 0;
    while j < s.len()
        invariant
            j <= s@.len(),
            cv == chunks_view(s@),
            chunk_insert_pos(cv, key as nat, 0) == chunk_insert_pos(cv, key as nat, j as int),
        decreases s@.len() - j,
    {
        if key < s[j].0 {
            return j;
        }
        j += 1;
    }
    j
}

/// Merges the transcripts of overlapping chunks into one: chunks in order of their offset,
/// their segments in turn, dropping what repeats the overlap and starting a segment that
/// overlaps the previous one where that one ends.
pub fn stitch_transcript_chunks(chunk_results: Vec<(u64, Vec<TranscriptSegment>)>) -> (r: Vec<
    TranscriptSegment,
>)
    ensures
        segs_view(r@) == stitch_segs(chunk_segs_flat(sort_chunks(chunks_view(chunk_results@)))),
{
    let ghost cv = chunks_view(chunk_results@);
    let mut sorted: Vec<(u64, Vec<TranscriptSegment>)> = Vec::new();
    let mut rest = chunk_results;
    let mut i: usize = 0;
    let ghost n = rest@.len();
    assert(rest@.len() == rest.len());
    while rest.len() > 0
        invariant
            n == cv.len(),
            n <= usize::MAX,
            i + rest@.len() == n,
            chunks_view(rest@) == cv.skip(i as int),
            chunks_view(sorted@) == sort_chunks(cv.take(i as int)),
        decreases rest@.len(),
    {
        let ghost old_rest = rest@;
        let x = rest.remove(0);
        proof {
            assert(chunks_view(old_rest)[0] == (x.0 as nat, segs_view(x.1@)));
            assert(chunks_view(rest@) =~= chunks_view(old_rest).skip(1));
            assert(cv.skip(i as int).skip(1) =~= cv.skip(i + 1));
            assert(cv.take(i + 1).drop_last() =~= cv.take(i as int));
            assert(cv.take(i + 1).last() == cv[i as int]);
        }
        let j = chunk_insert_pos_exec(&sorted, x.0);
        let ghost before = chunks_view(sorted@);
        let ghost xv = (x.0 as nat, segs_view(x.1@));
        sorted.insert(j, x);
        assert(chunks_view(sorted@) =~= before.insert(j as int, xv));
        i += 1;
    }
    assert(cv.take(n as int) =~= cv);
    let ghost sv = chunks_view(sorted@);
    assert(sorted@.len() == sorted.len());
    let mut out: Vec<TranscriptSegment> = Vec::new();
    let mut c: usize = 0;
    assert(segs_view(out@) =~= stitch_segs(chunk_segs_flat(sv.take(0))));
    while sorted.len() > 0
        invariant
            c + sorted@.len() == sv.len(),
            sv.len() <= usize::MAX,
            chunks_view(sorted@) == sv.skip(c as int),
            segs_view(out@) == stitch_segs(chunk_segs_flat(sv.take(c as int))),
        decreases sorted@.len(),
    {
        let ghost old_sorted = sorted@;
        let (off, segs) = sorted.remove(0);
        proof {
            assert(chunks_view(old_sorted)[0] == (off as nat, segs_view(segs@)));
            assert(chunks_view(sorted@) =~= chunks_view(old_sorted).skip(1));
            assert(sv.skip(c as int).skip(1) =~= sv.skip(c + 1));
            assert(sv.take(c + 1).drop_last() =~= sv.take(c as int));
            assert(sv.take(c + 1).last() == sv[c as int]);
        }
        let ghost base = chunk_segs_flat(sv.take(c as int));
        let ghost cs = segs_view(segs@);
        let mut k: usize = 0;
        let mut pending = segs;
        assert(pending@.len() == pending.len());
        while pending.len() > 0
            invariant
                k + pending@.len() == cs.len(),
                cs.len() <= usize::MAX,
                segs_view(pending@) == cs.skip(k as int),
                segs_view(out@) == stitch_segs(base + cs.take(k as int)),
            decreases pending@.len(),
        {
            let ghost old_pending = pending@;
            let seg = pending.remove(0);
            proof {
                assert(segs_view(old_pending)[0] == seg_view(seg));
                assert(segs_view(pending@) =~= segs_view(old_pending).skip(1));
                assert(cs.skip(k as int).skip(1) =~= cs.skip(k + 1));
                assert((base + cs.take(k + 1)).drop_last() =~= base + cs.take(k as int));
                assert((base + cs.take(k + 1)).last() == seg_view(seg));
            }
            let ghost before = segs_view(out@);
            let n_out = out.len();
            if n_out > 0 && seg.start_ms as u128 <= out[n_out - 1].end_ms as u128 + 300 {
                let last_end = out[n_out - 1].end_ms;
                if seg.end_ms as u128 <= last_end as u128 + 300 {
                } else {
                    out.push(TranscriptSegment { start_ms: last_end, end_ms: seg.end_ms, text: seg.text });
                    assert(segs_view(out@) =~= before.push((last_end as nat, seg.end_ms as nat, seg.text@)));
                }
            } else {
                out.push(seg);
                assert(segs_view(out@) =~= before.push(seg_view(seg)));
            }
            k += 1;
        }
        assert(cs.take(cs.len() as int) =~= cs);
        c += 1;
    }
    assert(sv.take(sv.len() as int) =~= sv);
    out
}

/// A stitched transcript never runs backwards: every segment starts no earlier than the one
/// before it ends.
pub proof fn lemma_stitched_no_overlap(segs: Seq<(nat, nat, Seq<char>)>)
    ensures
        forall|k: int|
            0 <= k < stitch_segs(segs).len() - 1 ==> #[trigger] stitch_segs(segs)[k].1 <= stitch_segs(
                segs,
            )[k + 1].0,
    decreases segs.len(),
{
    if segs.len() > 0 {
        lemma_stitched_no_overlap(segs.drop_last());
        let a = stitch_segs(segs.drop_last());
        let r = stitch_segs(segs);
        assert forall|k: int| 0 <= k < r.len() - 1 implies #[trigger] r[k].1 <= r[k + 1].0 by {
            if k < a.len() - 1 {
                assert(r[k] == a[k] && r[k + 1] == a[k + 1]);
            } else {
                assert(r[k] == a.last());
            }
        }
    }
}

/// The indices of the input segments that the stitched transcript keeps, in order.
pub open spec fn stitch_sources(segs: Seq<(nat, nat, Seq<char>)>) -> Seq<int>
    decreases segs.len(),
{
    if segs.len() == 0 {
        seq![]
    } else {
        let acc = stitch_segs(segs.drop_last());
        let seg = segs.last();
        let src = stitch_sources(segs.drop_last());
        if acc.len() > 0 && seg.0 <= acc.last().1 + 300 && seg.1 <= acc.last().1 + 300 {
            src
        } else {
            src.push(segs.len() - 1)
        }
    }
}

/// Each stitched segment comes from its own input segment, in input order: the `k`-th from
/// the one at `stitch_sources(segs)[k]`, whose text and end it keeps, starting where that one
/// starts or where the stitched segment before it ends.
pub proof fn lemma_stitched_from_inputs(segs: Seq<(nat, nat, Seq<char>)>)
    ensures
        stitch_sources(segs).len() == stitch_segs(segs).len(),
        forall|a: int, b: int|
            0 <= a < b < stitch_sources(segs).len() ==> #[trigger] stitch_sources(segs)[a]
                < #[trigger] stitch_sources(segs)[b],
        forall|k: int|
            0 <= k < stitch_segs(segs).len() ==> {
                let o = #[trigger] stitch_segs(segs)[k];
                let i = stitch_sources(segs)[k];
                &&& 0 <= i < segs.len()
                &&& o.1 == segs[i].1
                &&& o.2 == segs[i].2
                &&& (o.0 == segs[i].0 || (k > 0 && o.0 == stitch_segs(segs)[k - 1].1))
            },
    decreases segs.len(),
{
    if segs.len() > 0 {
        let d = segs.drop_last();
        lemma_stitched_from_inputs(d);
        let a = stitch_segs(d);
        let r = stitch_segs(segs);
        let s0 = stitch_sources(d);
        let s1 = stitch_sources(segs);
        assert forall|k: int| 0 <= k < a.len() implies r[k] == a[k] && s1[k] == s0[k] && segs[s0[k]]
            == d[s0[k]] by {}
    }
}

/// Sorting chunks puts them in order of offset and keeps each of them.
pub proof fn lemma_sort_chunks_ordered(s: Seq<(nat, Seq<(nat, nat, Seq<char>)>)>)
    ensures
        sort_chunks(s).len() == s.len(),
        forall|a: int, b: int|
            0 <= a < b < sort_chunks(s).len() ==> (#[trigger] sort_chunks(s)[a]).0 <= (
            #[trigger] sort_chunks(s)[b]).0,
        forall|q: int| 0 <= q < s.len() ==> s.contains(#[trigger] sort_chunks(s)[q]),
    decreases s.len(),
{
    if s.len() > 0 {
        let d = s.drop_last();
        lemma_sort_chunks_ordered(d);
        let t = sort_chunks(d);
        let x = s.last();
        let p = chunk_insert_pos(t, x.0, 0);
        lemma_chunk_insert_pos(t, x.0, 0);
        let u = t.insert(p, x);
        assert forall|a: int, b: int| 0 <= a < b < u.len() implies (#[trigger] u[a]).0 <= (
        #[trigger] u[b]).0 by {
            if b < p {
                assert(u[a] == t[a] && u[b] == t[b]);
            } else if b == p {
                assert(u[a] == t[a]);
            } else if a < p {
                assert(u[a] == t[a] && u[b] == t[b - 1]);
            } else if a == p {
                assert(u[b] == t[b - 1]);
                assert(t[p].0 <= t[b - 1].0);
            } else {
                assert(u[a] == t[a - 1] && u[b] == t[b - 1]);
            }
        }
        assert forall|q: int| 0 <= q < s.len() implies s.contains(#[trigger] u[q]) by {
            if q < p {
                assert(u[q] == t[q]);
                assert(d.contains(t[q]));
                let k = choose|k: int| 0 <= k < d.len() && d[k] == t[q];
                assert(s[k] == u[q]);
            } else if q == p {
                assert(s[s.len() - 1] == u[q]);
            } else {
                assert(u[q] == t[q - 1]);
                assert(d.contains(t[q - 1]));
                let k = choose|k: int| 0 <= k < d.len() && d[k] == t[q - 1];
                assert(s[k] == u[q]);
            }
        }
    }
}

/// Every segment starts no later than it ends.
pub open spec fn segs_forward(segs: Seq<(nat, nat, Seq<char>)>) -> bool {
    forall|k: int| 0 <= k < segs.len() ==> (#[trigger] segs[k]).0 <= segs[k].1
}

/// Every segment of every chunk starts no later than it ends.
pub open spec fn chunks_forward(chunks: Seq<(nat, Seq<(nat, nat, Seq<char>)>)>) -> bool {
    forall|c: int| 0 <= c < chunks.len() ==> segs_forward(#[trigger] chunks[c].1)
}

proof fn lemma_flat_forward(chunks: Seq<(nat, Seq<(nat, nat, Seq<char>)>)>)
    requires
        chunks_forward(chunks),
    ensures
        segs_forward(chunk_segs_flat(chunks)),
    decreases chunks.len(),
{
    if chunks.len() > 0 {
        let d = chunks.drop_last();
        assert(chunks_forward(d)) by {
            assert forall|c: int| 0 <= c < d.len() implies segs_forward(#[trigger] d[c].1) by {
                assert(d[c] == chunks[c]);
            }
        }
        lemma_flat_forward(d);
        let a = chunk_segs_flat(d);
        let l = chunks.last().1;
        assert(segs_forward(l)) by {
            assert(chunks[chunks.len() - 1] == chunks.last());
        }
        let f = a + l;
        assert forall|k: int| 0 <= k < f.len() implies (#[trigger] f[k]).0 <= f[k].1 by {
            if k < a.len() {
                assert(f[k] == a[k]);
            } else {
                assert(f[k] == l[k - a.len()]);
            }
        }
    }
}

proof fn lemma_stitched_forward(segs: Seq<(nat, nat, Seq<char>)>)
    requires
        segs_forward(segs),
    ensures
        segs_forward(stitch_segs(segs)),
    decreases segs.len(),
{
    if segs.len() > 0 {
        let d = segs.drop_last();
        assert(segs_forward(d)) by {
            assert forall|k: int| 0 <= k < d.len() implies (#[trigger] d[k]).0 <= d[k].1 by {
                assert(d[k] == segs[k]);
            }
        }
        lemma_stitched_forward(d);
        let a = stitch_segs(d);
        let r = stitch_segs(segs);
        assert(segs[segs.len() - 1] == segs.last());
        assert forall|k: int| 0 <= k < r.len() implies (#[trigger] r[k]).0 <= r[k].1 by {
            if k < a.len() {
                assert(r[k] == a[k]);
            }
        }
    }
}

/// The segments of the chunks in order of offset, one chunk after another.
pub open spec fn flat_sorted(chunks: Seq<(nat, Seq<(nat, nat, Seq<char>)>)>) -> Seq<(nat, nat, Seq<char>)> {
    chunk_segs_flat(sort_chunks(chunks))
}

/// The stitched transcript of the chunks.
pub open spec fn stitched_of(chunks: Seq<(nat, Seq<(nat, nat, Seq<char>)>)>) -> Seq<(nat, nat, Seq<char>)> {
    stitch_segs(flat_sorted(chunks))
}

/// The `k`-th stitched segment `o` comes from input segment `i`: it has its text and end,
/// and starts where it starts or where the stitched segment before it ends.
pub open spec fn from_source(
    o: (nat, nat, Seq<char>),
    inputs: Seq<(nat, nat, Seq<char>)>,
    i: int,
    k: int,
    out: Seq<(nat, nat, Seq<char>)>,
) -> bool {
    &&& 0 <= i < inputs.len()
    &&& o.1 == inputs[i].1
    &&& o.2 == inputs[i].2
    &&& (o.0 == inputs[i].0 || (k > 0 && o.0 == out[k - 1].1))
}

/// The stitched transcript of a set of chunks: the chunks are taken in order of offset, each
/// one of those given; the stitched segments never run backwards, and each starts no later
/// than it ends when every given segment does; and each comes from its own segment of the
/// chunks' segments in turn (the `k`-th from the one at `stitch_sources(..)[k]`), in order,
/// with that segment's text and end, starting where it starts or where the stitched segment
/// before it ends.
pub proof fn lemma_stitched_transcript(chunks: Seq<(nat, Seq<(nat, nat, Seq<char>)>)>)
    ensures
        sort_chunks(chunks).len() == chunks.len(),
        forall|a: int, b: int|
            0 <= a < b < sort_chunks(chunks).len() ==> (#[trigger] sort_chunks(chunks)[a]).0 <= (
            #[trigger] sort_chunks(chunks)[b]).0,
        forall|q: int| 0 <= q < chunks.len() ==> chunks.contains(#[trigger] sort_chunks(chunks)[q]),
        forall|k: int|
            0 <= k < stitched_of(chunks).len() - 1 ==> (#[trigger] stitched_of(chunks)[k]).1
                <= stitched_of(chunks)[k + 1].0,
        chunks_forward(chunks) ==> segs_forward(stitched_of(chunks)),
        stitch_sources(flat_sorted(chunks)).len() == stitched_of(chunks).len(),
        forall|a: int, b: int|
            0 <= a < b < stitched_of(chunks).len() ==> #[trigger] stitch_sources(flat_sorted(chunks))[a]
                < #[trigger] stitch_sources(flat_sorted(chunks))[b],
        forall|k: int|
            0 <= k < stitched_of(chunks).len() ==> from_source(
                #[trigger] stitched_of(chunks)[k],
                flat_sorted(chunks),
                stitch_sources(flat_sorted(chunks))[k],
                k,
                stitched_of(chunks),
            ),
{
    let sorted = sort_chunks(chunks);
    let f = chunk_segs_flat(sorted);
    lemma_sort_chunks_ordered(chunks);
    lemma_stitched_no_overlap(f);
    lemma_stitched_from_inputs(f);
    if chunks_forward(chunks) {
        assert(chunks_forward(sorted)) by {
            assert forall|c: int| 0 <= c < sorted.len() implies segs_forward(#[trigger] sorted[c].1) by {
                assert(chunks.contains(sorted[c]));
                let m = choose|m: int| 0 <= m < chunks.len() && chunks[m] == sorted[c];
                assert(segs_forward(chunks[m].1));
            }
        }
        lemma_flat_forward(sorted);
        lemma_stitched_forward(f);
    }
    let o = stitch_segs(f);
    let src = stitch_sources(f);
    assert forall|k: int| 0 <= k < o.len() implies from_source(#[trigger] o[k], f, src[k], k, o) by {
        assert(o[k] == stitch_segs(f)[k]);
    }
}

proof fn lemma_chunk_insert_pos(s: Seq<(nat, Seq<(nat, nat, Seq<char>)>)>, key: nat, j: int)
    requires
        0 <= j <= s.len(),
    ensures
        j <= chunk_insert_pos(s, key, j) <= s.len(),
        forall|m: int| j <= m < chunk_insert_pos(s, key, j) ==> (#[trigger] s[m]).0 <= key,
        chunk_insert_pos(s, key, j) < s.len() ==> key < s[chunk_insert_pos(s, key, j)].0,
    decreases s.len() - j,
{
    if j < s.len() && key >= s[j].0 {
        lemma_chunk_insert_pos(s, key, j + 1);
    }
}

/// What is kept of the body of a failed transcription response: for an HTML page, a short
/// note (naming the endpoint for a 404), else the first 300 bytes of the body.
pub open spec fn error_body_spec(raw: Seq<char>, code: u16, status_text: Seq<char>, endpoint: Seq<char>) -> Seq<char> {
    if starts_with_seq(raw, "<!DOCTYPE"@) || contains_seq(raw, "<html"@) {
        if code == 404 {
            "Endpoint not found (404) at "@ + endpoint
                + ". The provider does not support audio transcription on this endpoint."@
        } else {
            "Server returned HTTP "@ + status_text
        }
    } else {
        byte_head(raw, 300)
    }
}

/// What is kept of the body of a failed transcription response; `status_text` is the HTTP
/// status as it is shown (e.g. `503 Service Unavailable`).
pub fn transcription_error_body(raw: &str, code: u16, status_text: &str, endpoint: &str) -> (r: String)
    requires
        starts_with_seq(raw@, "<!DOCTYPE"@) || contains_seq(raw@, "<html"@) || head_on_boundary(raw@, 300),
    ensures
        r@ == error_body_spec(raw@, code, status_text@, endpoint@),
{
    let b = chars_of(raw);
    if starts_with(&b, &chars_of("<!DOCTYPE")) || contains(&b, &chars_of("<html")) {
        if code == 404 {
            let mut v = chars_of("Endpoint not found (404) at ");
            push_str(&mut v, endpoint);
            push_str(&mut v, ". The provider does not support audio transcription on this endpoint.");
            string_of(&v)
        } else {
            let mut v = chars_of("Server returned HTTP ");
            push_str(&mut v, status_text);
            string_of(&v)
        }
    } else {
        string_of(&head_bytes(&b, 300))
    }
}

/// A recording is sent in overlapping chunks when its preprocessed file is over 3 MiB or it
/// lasts seven minutes or more.
pub fn needs_chunking(file_size_bytes: u64, duration_ms: u64) -> (r: bool)
    ensures
        r == (file_size_bytes > 3 * 1024 * 1024 || duration_ms >= 420000),
{
    file_size_bytes > 3 * 1024 * 1024 || duration_ms >= 420000
}

/// The recognizer's own figures reject a segment whatever its text: a no-speech probability
/// above 0.6, or above 0.35 with an average log-probability below -0.8 (a missing one counting
/// as 0), a compression ratio above 2.2, or an average log-probability below -1.4. A text
/// that is blank once trimmed is rejected too.
pub proof fn lemma_poor_confidence_rejects(text: Seq<char>, nsp: Option<i64>, cr: Option<i64>, lp: Option<i64>)
    ensures
        (lp matches Some(l) && l < -1400000) ==> hallucination_spec(text, nsp, cr, lp),
        (cr matches Some(c) && c > 2200000) ==> hallucination_spec(text, nsp, cr, lp),
        (nsp matches Some(n) && n > 600000) ==> hallucination_spec(text, nsp, cr, lp),
        (nsp matches Some(n) && n > 350000 && (lp matches Some(l) && l < -800000))
            ==> hallucination_spec(text, nsp, cr, lp),
        trim_seq(text).len() == 0 ==> hallucination_spec(text, nsp, cr, lp),
{
}

} // verus!
