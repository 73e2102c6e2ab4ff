use vstd::prelude::*;
use crate::models::{seg_view, segs_view, Chapter, Highlight, TranscriptSegment};
use crate::structuring::{detect_scripture_references, ref_pairs, scripture_refs_spec};
use crate::whisper::{contains_any, count_in, count_in_exec};
use crate::text::{
    chars_of, contains, contains_seq, copy_range, dec, dec_pad, fmt_u64, fmt_u64_pad, find, find_seq,
    join, join_with, lowercase_of, push_all, push_str, rfind, rfind_seq, starts_with,
    starts_with_seq, string_of, to_lowercase, trim, trim_seq, views, words, words_seq, byte_len,
    utf8_byte_len, lead_from, trail_from, lemma_lead_from, lemma_trail_from, float_milli,
    parse_float_milli, char_to_uppercase,
};
use crate::structuring::{split_char, split_char_exec, capitalized, ends_sentence, ends_sentence_exec};
use crate::ffmpeg::{AudioPeak, compute_segment_audio_energy, energy_from};

verus! {

// ---------------------------------------------------------------------------
// Timestamps and prompts.
// ---------------------------------------------------------------------------

/// Whole seconds of a time in milliseconds, as a `u32` (saturating).
pub open spec fn whole_secs(ms: nat) -> nat {
    if ms / 1000 > u32::MAX {
        u32::MAX as nat
    } else {
        ms / 1000
    }
}

/// `[HH:MM:SS]` for a time in milliseconds, seconds truncated.
pub open spec fn timestamp_spec(ms: nat) -> Seq<char> {
    let t = whole_secs(ms);
    "["@ + dec_pad(t / 3600, 2) + ":"@ + dec_pad((t % 3600) / 60, 2) + ":"@ + dec_pad(t % 60, 2)
        + "]"@
}

/// Formats a time in milliseconds as `[HH:MM:SS]`.
pub fn format_timestamp(ms: u64) -> (r: String)
    ensures
        r@ == timestamp_spec(ms as nat),
{
    string_of(&timestamp_chars(ms))
}

fn timestamp_chars(ms: u64) -> (r: Vec<char>)
    ensures
        r@ == timestamp_spec(ms as nat),
{
    let t: u64 = if ms / 1000 > u32::MAX as u64 {
        u32::MAX as u64
    } else {
        ms / 1000
    };
    let mut out = chars_of("[");
    push_all(&mut out, &fmt_u64_pad(t / 3600, 2));
    push_str(&mut out, ":");
    push_all(&mut out, &fmt_u64_pad((t % 3600) / 60, 2));
    push_str(&mut out, ":");
    push_all(&mut out, &fmt_u64_pad(t % 60, 2));
    push_str(&mut out, "]");
    out
}

/// One transcript line of a prompt: the segment's start and its trimmed text.
pub open spec fn prompt_line(seg: (nat, nat, Seq<char>)) -> Seq<char> {
    timestamp_spec(seg.0) + " "@ + trim_seq(seg.2)
}

pub open spec fn prompt_lines(segs: Seq<(nat, nat, Seq<char>)>) -> Seq<Seq<char>> {
    segs.map_values(|s: (nat, nat, Seq<char>)| prompt_line(s))
}

fn prompt_line_exec(seg: &TranscriptSegment) -> (r: Vec<char>)
    ensures
        r@ == prompt_line(seg_view(*seg)),
{
    let mut out = timestamp_chars(seg.start_ms);
    push_str(&mut out, " ");
    push_all(&mut out, &trim(&chars_of(seg.text.as_str())));
    out
}

/// The transcript as prompt text: one `[HH:MM:SS] text` line per segment.
pub fn format_segments_to_prompt(segments: &[TranscriptSegment]) -> (r: String)
    ensures
        r@ == join_with(prompt_lines(segs_view(segments@)), "\n"@),
{
    let mut ls: Vec<Vec<char>> = Vec::new();
    let mut i: usize = 0;
    while i < segments.len()
        invariant
            i <= segments@.len(),
            views(ls@) == prompt_lines(segs_view(segments@)).take(i as int),
        decreases segments@.len() - i,
    {
        let l = prompt_line_exec(&segments[i]);
        let ghost before = views(ls@);
        ls.push(l);
        assert(views(ls@) =~= before.push(l@));
        assert(prompt_lines(segs_view(segments@)).take(i + 1) =~= prompt_lines(
            segs_view(segments@),
        ).take(i as int).push(prompt_line(seg_view(segments@[i as int]))));
        i += 1;
    }
    assert(prompt_lines(segs_view(segments@)).take(segments@.len() as int) =~= prompt_lines(
        segs_view(segments@),
    ));
    string_of(&join(&ls, &chars_of("\n")))
}

// ---------------------------------------------------------------------------
// The JSON in a model's reply.
// ---------------------------------------------------------------------------

/// The JSON a model's reply carries: inside a ```json (or ```) fence when there is a closing
/// fence, else from the first `{` to the last `}`, else the trimmed reply.
pub open spec fn json_payload_spec(s: Seq<char>) -> Seq<char> {
    let t = trim_seq(s);
    let fenced: Option<Seq<char>> = if starts_with_seq(t, "```json"@) {
        match rfind_seq(t.skip(7), "```"@) {
            Some(e) => Some(trim_seq(t.skip(7).take(e))),
            None => None,
        }
    } else if starts_with_seq(t, "```"@) {
        match rfind_seq(t.skip(3), "```"@) {
            Some(e) => Some(trim_seq(t.skip(3).take(e))),
            None => None,
        }
    } else {
        None
    };
    match fenced {
        Some(f) => f,
        None => match (find_seq(t, "{"@), rfind_seq(t, "}"@)) {
            (Some(a), Some(b)) => if b > a {
                t.subrange(a, b + 1)
            } else {
                t
            },
            _ => t,
        },
    }
}

/// Extracts the JSON from a model's reply.
pub fn extract_json_payload(s: &str) -> (r: String)
    ensures
        r@ == json_payload_spec(s@),
{
    proof {
        reveal_strlit("```json");
        reveal_strlit("```");
    }
    let t = trim(&chars_of(s));
    let fence = chars_of("```");
    if starts_with(&t, &chars_of("```json")) {
        let rest = copy_range(&t, 7, t.len());
        assert(rest@ =~= t@.skip(7));
        if let Some(e) = rfind(&rest, &fence) {
            proof {
                crate::text::lemma_rfind_below(rest@, fence@, rest@.len() - fence@.len());
            }
            let inner = copy_range(&rest, 0, e);
            assert(inner@ =~= rest@.take(e as int));
            return string_of(&trim(&inner));
        }
    } else if starts_with(&t, &fence) {
        let rest = copy_range(&t, 3, t.len());
        assert(rest@ =~= t@.skip(3));
        if let Some(e) = rfind(&rest, &fence) {
            proof {
                crate::text::lemma_rfind_below(rest@, fence@, rest@.len() - fence@.len());
            }
            let inner = copy_range(&rest, 0, e);
            assert(inner@ =~= rest@.take(e as int));
            return string_of(&trim(&inner));
        }
    }
    match (find(&t, &chars_of("{")), rfind(&t, &chars_of("}"))) {
        (Some(a), Some(b)) => {
            proof {
                reveal_strlit("}");
                crate::text::lemma_rfind_below(t@, "}"@, t@.len() - 1);
            }
            if b > a {
                let r = copy_range(&t, a, b + 1);
                string_of(&r)
            } else {
                string_of(&t)
            }
        },
        _ => string_of(&t),
    }
}

// ---------------------------------------------------------------------------
// Chapters.
// ---------------------------------------------------------------------------

/// (id, title, summary, start, end) of a chapter.
pub open spec fn chapter_view(c: Chapter) -> (u128, Seq<char>, Seq<char>, nat, nat) {
    (c.id, c.title@, c.summary@, c.start_ms as nat, c.end_ms as nat)
}

pub open spec fn chapters_view(s: Seq<Chapter>) -> Seq<(u128, Seq<char>, Seq<char>, nat, nat)> {
    s.map_values(|c: Chapter| chapter_view(c))
}

/// Where a chapter starting at `key` goes among chapters sorted by start: after those that
/// start no later.
pub open spec fn chapter_insert_pos(s: Seq<(u128, Seq<char>, Seq<char>, nat, nat)>, key: nat, j: int) -> int
    decreases s.len() - j,
{
    if j < 0 || j >= s.len() {
        s.len() as int
    } else if key < s[j].3 {
        j
    } else {
        chapter_insert_pos(s, key, j + 1)
    }
}

/// Stable sort of chapters by start.
pub open spec fn sort_chapters(s: Seq<(u128, Seq<char>, Seq<char>, nat, nat)>) -> Seq<(u128, Seq<char>, Seq<char>, nat, nat)>
    decreases s.len(),
{
    if s.len() == 0 {
        s
    } else {
        let t = sort_chapters(s.drop_last());
        t.insert(chapter_insert_pos(t, s.last().3, 0), s.last())
    }
}

/// Chapters in start order with empty ones dropped and each one cut short where the next
/// begins.
pub open spec fn clip_chapters(s: Seq<(u128, Seq<char>, Seq<char>, nat, nat)>) -> Seq<(u128, Seq<char>, Seq<char>, nat, nat)>
    decreases s.len(),
{
    if s.len() == 0 {
        s
    } else {
        let v = clip_chapters(s.drop_last());
        let ch = s.last();
        if ch.4 <= ch.3 {
            v
        } else if v.len() > 0 && ch.3 < v.last().4 {
            v.update(v.len() - 1, (v.last().0, v.last().1, v.last().2, v.last().3, ch.3)).push(ch)
        } else {
            v.push(ch)
        }
    }
}

fn chapter_insert_pos_exec(s: &Vec<Chapter>, key: u64) -> (j: usize)
    ensures
        j as int == chapter_insert_pos(chapters_view(s@), key as nat, 0),
        j <= s@.len(),
{
    let ghost cv = chapters_view(s@);
    let mut j: usize = 0;
    while j < s.len()
        invariant
            j <= s@.len(),
            cv == chapters_view(s@),
            chapter_insert_pos(cv, key as nat, 0) == chapter_insert_pos(cv, key as nat, j as int),
        decreases s@.len() - j,
    {
        if key < s[j].start_ms {
            return j;
        }
        j += 1;
    }
    j
}

/// Puts chapters in order of their start, drops those that do not end after they start,
/// and cuts each one short where the next begins.
pub fn validate_chapters(chapters: Vec<Chapter>) -> (r: Vec<Chapter>)
    ensures
        chapters_view(r@) == clip_chapters(sort_chapters(chapters_view(chapters@))),
{
    let ghost cv = chapters_view(chapters@);
    let mut sorted: Vec<Chapter> = Vec::new();
    let mut rest = chapters;
    let mut i: usize = 0;
    let ghost n = cv.len();
    assert(rest@.len() == rest.len());
    assert(chapters_view(sorted@) =~= sort_chapters(cv.take(0)));
    while rest.len() > 0
        invariant
            n == cv.len(),
            n <= usize::MAX,
            i + rest@.len() == n,
            chapters_view(rest@) == cv.skip(i as int),
            chapters_view(sorted@) == sort_chapters(cv.take(i as int)),
        decreases rest@.len(),
    {
        let ghost old_rest = rest@;
        let x = rest.remove(0);
        proof {
            assert(chapters_view(old_rest)[0] == chapter_view(x));
            assert(chapters_view(rest@) =~= chapters_view(old_rest).skip(1));
            assert(cv.skip(i as int).skip(1) =~= cv.skip(i + 1));
            assert(cv.take(i + 1).drop_last() =~= cv.take(i as int));
            assert(cv.take(i + 1).last() == cv[i as int]);
        }
        let j = chapter_insert_pos_exec(&sorted, x.start_ms);
        let ghost before = chapters_view(sorted@);
        let ghost xv = chapter_view(x);
        sorted.insert(j, x);
        assert(chapters_view(sorted@) =~= before.insert(j as int, xv));
        i += 1;
    }
    assert(cv.take(n as int) =~= cv);
    let ghost sv = chapters_view(sorted@);
    let mut out: Vec<Chapter> = Vec::new();
    let mut c: usize = 0;
    assert(sorted@.len() == sorted.len());
    assert(chapters_view(out@) =~= clip_chapters(sv.take(0)));
    while sorted.len() > 0
        invariant
            c + sorted@.len() == sv.len(),
            sv.len() <= usize::MAX,
            chapters_view(sorted@) == sv.skip(c as int),
            chapters_view(out@) == clip_chapters(sv.take(c as int)),
        decreases sorted@.len(),
    {
        let ghost old_sorted = sorted@;
        let ch = sorted.remove(0);
        proof {
            assert(chapters_view(old_sorted)[0] == chapter_view(ch));
            assert(chapters_view(sorted@) =~= chapters_view(old_sorted).skip(1));
            assert(sv.skip(c as int).skip(1) =~= sv.skip(c + 1));
            assert(sv.take(c + 1).drop_last() =~= sv.take(c as int));
            assert(sv.take(c + 1).last() == sv[c as int]);
        }
        let ghost before = chapters_view(out@);
        if ch.end_ms > ch.start_ms {
            let n_out = out.len();
            if n_out > 0 && ch.start_ms < out[n_out - 1].end_ms {
                let last = out.pop().unwrap();
                let cut = Chapter {
                    id: last.id,
                    title: last.title,
                    summary: last.summary,
                    start_ms: last.start_ms,
                    end_ms: ch.start_ms,
                };
                out.push(cut);
                assert(chapters_view(out@) =~= before.update(
                    before.len() - 1,
                    (before.last().0, before.last().1, before.last().2, before.last().3, ch.start_ms as nat),
                ));
            }
            let ghost mid = chapters_view(out@);
            out.push(ch);
            assert(chapters_view(out@) =~= mid.push(chapter_view(ch)));
        }
        c += 1;
    }
    assert(sv.take(sv.len() as int) =~= sv);
    out
}


pub open spec fn starts_sorted(s: Seq<(u128, Seq<char>, Seq<char>, nat, nat)>) -> bool {
    forall|a: int, b: int| 0 <= a < b < s.len() ==> (#[trigger] s[a]).3 <= (#[trigger] s[b]).3
}

/// Chapters in order that never overlap: each starts no later than it ends and ends no later
/// than the next one starts.
pub open spec fn chapters_ordered(v: Seq<(u128, Seq<char>, Seq<char>, nat, nat)>) -> bool {
    &&& forall|k: int| 0 <= k < v.len() ==> (#[trigger] v[k]).3 <= v[k].4
    &&& forall|k: int| 0 <= k < v.len() - 1 ==> (#[trigger] v[k]).4 <= v[k + 1].3
}

proof fn lemma_chapter_insert_pos(s: Seq<(u128, Seq<char>, Seq<char>, nat, nat)>, key: nat, j: int)
    requires
        0 <= j <= s.len(),
    ensures
        j <= chapter_insert_pos(s, key, j) <= s.len(),
        forall|m: int| j <= m < chapter_insert_pos(s, key, j) ==> (#[trigger] s[m]).3 <= key,
        chapter_insert_pos(s, key, j) < s.len() ==> key < s[chapter_insert_pos(s, key, j)].3,
    decreases s.len() - j,
{
    if j < s.len() && !(key < s[j].3) {
        lemma_chapter_insert_pos(s, key, j + 1);
    }
}

proof fn lemma_sort_chapters(s: Seq<(u128, Seq<char>, Seq<char>, nat, nat)>)
    ensures
        starts_sorted(sort_chapters(s)),
    decreases s.len(),
{
    if s.len() > 0 {
        let t = sort_chapters(s.drop_last());
        lemma_sort_chapters(s.drop_last());
        let x = s.last();
        let p = chapter_insert_pos(t, x.3, 0);
        lemma_chapter_insert_pos(t, x.3, 0);
        let u = t.insert(p, x);
        assert forall|a: int, b: int| 0 <= a < b < u.len() implies (#[trigger] u[a]).3 <= (
        #[trigger] u[b]).3 by {
            if b < p {
                assert(u[a] == t[a] && u[b] == t[b]);
            } else if b == p {
                assert(u[a] == t[a]);
            } else if a < p {
                assert(u[a] == t[a] && u[b] == t[b - 1]);
            } else if a == p {
                assert(u[b] == t[b - 1]);
                assert(t[p].3 <= t[b - 1].3);
            } else {
                assert(u[a] == t[a - 1] && u[b] == t[b - 1]);
            }
        }
    }
}

proof fn lemma_clip_chapters(s: Seq<(u128, Seq<char>, Seq<char>, nat, nat)>)
    requires
        starts_sorted(s),
    ensures
        chapters_ordered(clip_chapters(s)),
        clip_chapters(s).len() > 0 ==> clip_chapters(s).last().3 < clip_chapters(s).last().4,
        s.len() > 0 ==> forall|k: int|
            0 <= k < clip_chapters(s).len() ==> (#[trigger] clip_chapters(s)[k]).3 <= s.last().3,
    decreases s.len(),
{
    if s.len() > 0 {
        let d = s.drop_last();
        assert(starts_sorted(d)) by {
            assert forall|a: int, b: int| 0 <= a < b < d.len() implies (#[trigger] d[a]).3 <= (
            #[trigger] d[b]).3 by {
                assert(d[a] == s[a] && d[b] == s[b]);
            }
        }
        lemma_clip_chapters(d);
        let v = clip_chapters(d);
        let ch = s.last();
        if d.len() > 0 {
            assert(d.last() == s[s.len() - 2]);
            assert(d.last().3 <= ch.3);
        }
        let r = clip_chapters(s);
        if ch.4 <= ch.3 {
        } else if v.len() > 0 && ch.3 < v.last().4 {
            let w = v.update(v.len() - 1, (v.last().0, v.last().1, v.last().2, v.last().3, ch.3));
            assert(r == w.push(ch));
            assert forall|k: int| 0 <= k < r.len() implies (#[trigger] r[k]).3 <= r[k].4 by {
                if k < v.len() - 1 {
                    assert(r[k] == v[k]);
                } else if k == v.len() - 1 {
                    assert(r[k].3 == v.last().3);
                }
            }
            assert forall|k: int| 0 <= k < r.len() - 1 implies (#[trigger] r[k]).4 <= r[k + 1].3 by {
                if k < v.len() - 2 {
                    assert(r[k] == v[k] && r[k + 1] == v[k + 1]);
                } else if k == v.len() - 2 {
                    assert(r[k] == v[k]);
                    assert(r[k + 1].3 == v[k + 1].3);
                }
            }
            assert forall|k: int| 0 <= k < r.len() implies (#[trigger] r[k]).3 <= s.last().3 by {
                if k < v.len() {
                    assert(r[k].3 == v[k].3);
                }
            }
        } else {
            assert(r == v.push(ch));
            assert forall|k: int| 0 <= k < r.len() implies (#[trigger] r[k]).3 <= r[k].4 by {
                if k < v.len() {
                    assert(r[k] == v[k]);
                }
            }
            assert forall|k: int| 0 <= k < r.len() - 1 implies (#[trigger] r[k]).4 <= r[k + 1].3 by {
                if k < v.len() - 1 {
                    assert(r[k] == v[k] && r[k + 1] == v[k + 1]);
                } else {
                    assert(r[k] == v.last());
                }
            }
            assert forall|k: int| 0 <= k < r.len() implies (#[trigger] r[k]).3 <= s.last().3 by {
                if k < v.len() {
                    assert(r[k] == v[k]);
                }
            }
        }
    }
}

/// Validated chapters come in order and never overlap: each starts no later than it ends
/// and ends no later than the next one starts, and the last one ends after it starts.
pub proof fn lemma_validated_chapters_ordered(chapters: Seq<(u128, Seq<char>, Seq<char>, nat, nat)>)
    ensures
        chapters_ordered(clip_chapters(sort_chapters(chapters))),
        clip_chapters(sort_chapters(chapters)).len() > 0 ==> clip_chapters(
            sort_chapters(chapters),
        ).last().3 < clip_chapters(sort_chapters(chapters)).last().4,
{
    lemma_sort_chapters(chapters);
    lemma_clip_chapters(sort_chapters(chapters));
}


/// The indices of the chapters that end after they start, in order.
pub open spec fn kept_chapter_sources(s: Seq<(u128, Seq<char>, Seq<char>, nat, nat)>) -> Seq<int>
    decreases s.len(),
{
    if s.len() == 0 {
        seq![]
    } else if s.last().3 < s.last().4 {
        kept_chapter_sources(s.drop_last()).push(s.len() - 1)
    } else {
        kept_chapter_sources(s.drop_last())
    }
}

/// The `k`-th validated chapter `r[k]` comes from chapter `i` of `s`: it keeps its id,
/// title, summary and start, and ends where that one ends or, if earlier, where the next
/// validated chapter starts.
pub open spec fn chapter_from(
    r: Seq<(u128, Seq<char>, Seq<char>, nat, nat)>,
    s: Seq<(u128, Seq<char>, Seq<char>, nat, nat)>,
    i: int,
    k: int,
) -> bool {
    &&& 0 <= i < s.len()
    &&& r[k].0 == s[i].0 && r[k].1 == s[i].1 && r[k].2 == s[i].2 && r[k].3 == s[i].3
    &&& r[k].4 == if k + 1 < r.len() && r[k + 1].3 < s[i].4 {
        r[k + 1].3
    } else {
        s[i].4
    }
}

proof fn lemma_kept_count_insert(t: Seq<(u128, Seq<char>, Seq<char>, nat, nat)>, p: int, x: (u128, Seq<char>, Seq<char>, nat, nat))
    requires
        0 <= p <= t.len(),
    ensures
        kept_chapter_sources(t.insert(p, x)).len() == kept_chapter_sources(t).len() + if x.3 < x.4 {
            1int
        } else {
            0int
        },
    decreases t.len(),
{
    if p < t.len() {
        lemma_kept_count_insert(t.drop_last(), p, x);
        assert(t.insert(p, x).drop_last() =~= t.drop_last().insert(p, x));
        assert(t.insert(p, x).last() == t.last());
    } else {
        assert(t.insert(p, x) =~= t.push(x));
        assert(t.push(x).drop_last() =~= t);
    }
}

proof fn lemma_sort_chapters_keeps(s: Seq<(u128, Seq<char>, Seq<char>, nat, nat)>)
    ensures
        sort_chapters(s).len() == s.len(),
        kept_chapter_sources(sort_chapters(s)).len() == kept_chapter_sources(s).len(),
        forall|q: int| 0 <= q < s.len() ==> s.contains(#[trigger] sort_chapters(s)[q]),
    decreases s.len(),
{
    if s.len() > 0 {
        let d = s.drop_last();
        lemma_sort_chapters_keeps(d);
        let t = sort_chapters(d);
        let x = s.last();
        let p = chapter_insert_pos(t, x.3, 0);
        lemma_chapter_insert_pos(t, x.3, 0);
        lemma_kept_count_insert(t, p, x);
        let u = t.insert(p, x);
        assert forall|q: int| 0 <= q < s.len() implies s.contains(#[trigger] u[q]) by {
            if q < p {
                assert(u[q] == t[q]);
                assert(d.contains(t[q]));
                let k = choose|k: int| 0 <= k < d.len() && d[k] == t[q];
                assert(s[k] == u[q]);
            } else if q == p {
                assert(s[s.len() - 1] == u[q]);
            } else {
                assert(u[q] == t[q - 1]);
                assert(d.contains(t[q - 1]));
                let k = choose|k: int| 0 <= k < d.len() && d[k] == t[q - 1];
                assert(s[k] == u[q]);
            }
        }
    }
}

proof fn lemma_clip_chapters_sources(s: Seq<(u128, Seq<char>, Seq<char>, nat, nat)>)
    ensures
        kept_chapter_sources(s).len() == clip_chapters(s).len(),
        forall|a: int, b: int|
            0 <= a < b < kept_chapter_sources(s).len() ==> #[trigger] kept_chapter_sources(s)[a]
                < #[trigger] kept_chapter_sources(s)[b],
        forall|k: int|
            0 <= k < clip_chapters(s).len() ==> chapter_from(
                clip_chapters(s),
                s,
                #[trigger] kept_chapter_sources(s)[k],
                k,
            ),
        clip_chapters(s).len() > 0 ==> clip_chapters(s).last() == s[kept_chapter_sources(s).last()],
        forall|k: int|
            0 <= k < kept_chapter_sources(s).len() ==> 0 <= #[trigger] kept_chapter_sources(s)[k]
                < s.len(),
    decreases s.len(),
{
    if s.len() > 0 {
        let d = s.drop_last();
        lemma_clip_chapters_sources(d);
        let v = clip_chapters(d);
        let sd = kept_chapter_sources(d);
        let ch = s.last();
        let r = clip_chapters(s);
        let sr = kept_chapter_sources(s);
        assert forall|k: int| 0 <= k < sd.len() implies sr[k] == sd[k] && s[sd[k]] == d[sd[k]] by {}
        if ch.4 <= ch.3 {
            assert forall|k: int| 0 <= k < r.len() implies chapter_from(r, s, #[trigger] sr[k], k) by {
                assert(chapter_from(v, d, sd[k], k));
            }
        } else {
            let n = s.len() - 1;
            assert(sr == sd.push(n));
            if v.len() > 0 && ch.3 < v.last().4 {
                let w = v.update(v.len() - 1, (v.last().0, v.last().1, v.last().2, v.last().3, ch.3));
                assert(r == w.push(ch));
                assert forall|k: int| 0 <= k < r.len() implies chapter_from(r, s, #[trigger] sr[k], k) by {
                    if k < v.len() - 1 {
                        assert(chapter_from(v, d, sd[k], k));
                        assert(r[k] == v[k] && r[k + 1].3 == v[k + 1].3);
                    } else if k == v.len() - 1 {
                        assert(v.last() == d[sd.last()]);
                        assert(sd.last() == sd[k]);
                    }
                }
            } else {
                assert(r == v.push(ch));
                assert forall|k: int| 0 <= k < r.len() implies chapter_from(r, s, #[trigger] sr[k], k) by {
                    if k < v.len() - 1 {
                        assert(chapter_from(v, d, sd[k], k));
                        assert(r[k] == v[k] && r[k + 1] == v[k + 1]);
                    } else if k == v.len() - 1 {
                        assert(v.last() == d[sd.last()]);
                        assert(sd.last() == sd[k]);
                        assert(r[k] == v[k]);
                    }
                }
            }
        }
    }
}

/// Validation keeps every chapter that ends after it starts, and only those: as many come
/// out as there are such chapters. Taken in start order (each sorted chapter one of those
/// given), the `k`-th validated chapter comes from the sorted chapter at
/// `kept_chapter_sources(..)[k]`, later ones from later ones: it keeps that chapter's id,
/// title, summary and start, and ends where it ends or, if earlier, where the next validated
/// chapter starts.
pub proof fn lemma_validated_chapters_kept(chapters: Seq<(u128, Seq<char>, Seq<char>, nat, nat)>)
    ensures
        clip_chapters(sort_chapters(chapters)).len() == kept_chapter_sources(chapters).len(),
        sort_chapters(chapters).len() == chapters.len(),
        forall|q: int|
            0 <= q < chapters.len() ==> chapters.contains(#[trigger] sort_chapters(chapters)[q]),
        forall|a: int, b: int|
            0 <= a < b < kept_chapter_sources(sort_chapters(chapters)).len() ==> #[trigger] kept_chapter_sources(
                sort_chapters(chapters),
            )[a] < #[trigger] kept_chapter_sources(sort_chapters(chapters))[b],
        forall|k: int|
            0 <= k < clip_chapters(sort_chapters(chapters)).len() ==> chapter_from(
                clip_chapters(sort_chapters(chapters)),
                sort_chapters(chapters),
                #[trigger] kept_chapter_sources(sort_chapters(chapters))[k],
                k,
            ),
{
    lemma_sort_chapters_keeps(chapters);
    lemma_clip_chapters_sources(sort_chapters(chapters));
}

// ---------------------------------------------------------------------------
// How much a segment matters.
// ---------------------------------------------------------------------------

/// Phrases that introduce a reading of scripture.
pub open spec fn scripture_intro(i: int) -> Seq<char> {
    if i == 0 {
        "open your bibles"@
    } else if i == 1 {
        "turn with me to"@
    } else if i == 2 {
        "turn to"@
    } else if i == 3 {
        "the bible says"@
    } else if i == 4 {
        "scripture says"@
    } else if i == 5 {
        "in the book of"@
    } else if i == 6 {
        "look at verse"@
    } else if i == 7 {
        "hear the word of the lord"@
    } else if i == 8 {
        "the word of god"@
    } else {
        "chapter and verse"@
    }
}

fn scripture_intro_exec(i: usize) -> (r: &'static str)
    requires
        i < 10,
    ensures
        r@ == scripture_intro(i as int),
{
    match i {
        0 => "open your bibles",
        1 => "turn with me to",
        2 => "turn to",
        3 => "the bible says",
        4 => "scripture says",
        5 => "in the book of",
        6 => "look at verse",
        7 => "hear the word of the lord",
        8 => "the word of god",
        _ => "chapter and verse",
    }
}

/// Phrases that mark a structural point of the sermon.
pub open spec fn key_point_phrase(i: int) -> Seq<char> {
    if i == 0 {
        "point number one"@
    } else if i == 1 {
        "point number two"@
    } else if i == 2 {
        "point number three"@
    } else if i == 3 {
        "point number four"@
    } else if i == 4 {
        "point number five"@
    } else if i == 5 {
        "first point"@
    } else if i == 6 {
        "second point"@
    } else if i == 7 {
        "third point"@
    } else if i == 8 {
        "my first point"@
    } else if i == 9 {
        "my second point"@
    } else if i == 10 {
        "my third point"@
    } else if i == 11 {
        "first of all"@
    } else if i == 12 {
        "firstly"@
    } else if i == 13 {
        "secondly"@
    } else if i == 14 {
        "thirdly"@
    } else if i == 15 {
        "finally"@
    } else if i == 16 {
        "in conclusion"@
    } else if i == 17 {
        "to conclude"@
    } else if i == 18 {
        "in closing"@
    } else if i == 19 {
        "the key is"@
    } else if i == 20 {
        "the main thing"@
    } else if i == 21 {
        "principle number"@
    } else {
        "write this down"@
    }
}

fn key_point_phrase_exec(i: usize) -> (r: &'static str)
    requires
        i < 23,
    ensures
        r@ == key_point_phrase(i as int),
{
    match i {
        0 => "point number one",
        1 => "point number two",
        2 => "point number three",
        3 => "point number four",
        4 => "point number five",
        5 => "first point",
        6 => "second point",
        7 => "third point",
        8 => "my first point",
        9 => "my second point",
        10 => "my third point",
        11 => "first of all",
        12 => "firstly",
        13 => "secondly",
        14 => "thirdly",
        15 => "finally",
        16 => "in conclusion",
        17 => "to conclude",
        18 => "in closing",
        19 => "the key is",
        20 => "the main thing",
        21 => "principle number",
        _ => "write this down",
    }
}

/// Calls for the listeners' attention and imperatives.
pub open spec fn attention_phrase(i: int) -> Seq<char> {
    if i == 0 {
        "listen to me"@
    } else if i == 1 {
        "listen closely"@
    } else if i == 2 {
        "look at me"@
    } else if i == 3 {
        "hear me"@
    } else if i == 4 {
        "don't miss this"@
    } else if i == 5 {
        "do not miss this"@
    } else if i == 6 {
        "you cannot miss this"@
    } else if i == 7 {
        "pay attention"@
    } else if i == 8 {
        "somebody needs to hear this"@
    } else if i == 9 {
        "mark my words"@
    } else if i == 10 {
        "catch this"@
    } else if i == 11 {
        "i want you to hear this"@
    } else if i == 12 {
        "take this down"@
    } else if i == 13 {
        "you must"@
    } else if i == 14 {
        "you need to"@
    } else if i == 15 {
        "you have to"@
    } else if i == 16 {
        "don't give up"@
    } else if i == 17 {
        "stand up"@
    } else if i == 18 {
        "rise up"@
    } else if i == 19 {
        "hold on"@
    } else {
        "receive this"@
    }
}

fn attention_phrase_exec(i: usize) -> (r: &'static str)
    requires
        i < 21,
    ensures
        r@ == attention_phrase(i as int),
{
    match i {
        0 => "listen to me",
        1 => "listen closely",
        2 => "look at me",
        3 => "hear me",
        4 => "don't miss this",
        5 => "do not miss this",
        6 => "you cannot miss this",
        7 => "pay attention",
        8 => "somebody needs to hear this",
        9 => "mark my words",
        10 => "catch this",
        11 => "i want you to hear this",
        12 => "take this down",
        13 => "you must",
        14 => "you need to",
        15 => "you have to",
        16 => "don't give up",
        17 => "stand up",
        18 => "rise up",
        19 => "hold on",
        _ => "receive this",
    }
}

/// Theological declarations and affirmations.
pub open spec fn declaration_phrase(i: int) -> Seq<char> {
    if i == 0 {
        "the lord told me"@
    } else if i == 1 {
        "god told me"@
    } else if i == 2 {
        "the lord said to me"@
    } else if i == 3 {
        "the spirit of the lord"@
    } else if i == 4 {
        "holy spirit"@
    } else if i == 5 {
        "by the grace of god"@
    } else if i == 6 {
        "grace of god"@
    } else if i == 7 {
        "jesus said"@
    } else if i == 8 {
        "jesus christ"@
    } else if i == 9 {
        "the blood of jesus"@
    } else if i == 10 {
        "salvation"@
    } else if i == 11 {
        "born again"@
    } else if i == 12 {
        "eternal life"@
    } else if i == 13 {
        "the cross"@
    } else if i == 14 {
        "resurrection"@
    } else if i == 15 {
        "he is risen"@
    } else if i == 16 {
        "god so loved"@
    } else if i == 17 {
        "i declare"@
    } else if i == 18 {
        "i prophesy"@
    } else if i == 19 {
        "i decree"@
    } else if i == 20 {
        "in the name of jesus"@
    } else if i == 21 {
        "in jesus' name"@
    } else if i == 22 {
        "god is able"@
    } else {
        "god is going to"@
    }
}

fn declaration_phrase_exec(i: usize) -> (r: &'static str)
    requires
        i < 24,
    ensures
        r@ == declaration_phrase(i as int),
{
    match i {
        0 => "the lord told me",
        1 => "god told me",
        2 => "the lord said to me",
        3 => "the spirit of the lord",
        4 => "holy spirit",
        5 => "by the grace of god",
        6 => "grace of god",
        7 => "jesus said",
        8 => "jesus christ",
        9 => "the blood of jesus",
        10 => "salvation",
        11 => "born again",
        12 => "eternal life",
        13 => "the cross",
        14 => "resurrection",
        15 => "he is risen",
        16 => "god so loved",
        17 => "i declare",
        18 => "i prophesy",
        19 => "i decree",
        20 => "in the name of jesus",
        21 => "in jesus' name",
        22 => "god is able",
        _ => "god is going to",
    }
}

pub open spec fn scripture_intro_table() -> spec_fn(int) -> Seq<char> {
    |i: int| scripture_intro(i)
}

fn has_scripture_intro(h: &Vec<char>) -> (r: bool)
    ensures
        r == contains_any(h@, scripture_intro_table(), 10, 0),
{
    let mut i: usize = 0;
    while i < 10
        invariant
            i <= 10,
            contains_any(h@, scripture_intro_table(), 10, 0) == contains_any(h@, scripture_intro_table(), 10, i as int),
        decreases 10 - i,
    {
        if contains(h, &chars_of(scripture_intro_exec(i))) {
            return true;
        }
        i += 1;
    }
    false
}

pub open spec fn key_point_phrase_table() -> spec_fn(int) -> Seq<char> {
    |i: int| key_point_phrase(i)
}

fn has_key_point(h: &Vec<char>) -> (r: bool)
    ensures
        r == contains_any(h@, key_point_phrase_table(), 23, 0),
{
    let mut i: usize = 0;
    while i < 23
        invariant
            i <= 23,
            contains_any(h@, key_point_phrase_table(), 23, 0) == contains_any(h@, key_point_phrase_table(), 23, i as int),
        decreases 23 - i,
    {
        if contains(h, &chars_of(key_point_phrase_exec(i))) {
            return true;
        }
        i += 1;
    }
    false
}

pub open spec fn attention_phrase_table() -> spec_fn(int) -> Seq<char> {
    |i: int| attention_phrase(i)
}

fn has_attention_call(h: &Vec<char>) -> (r: bool)
    ensures
        r == contains_any(h@, attention_phrase_table(), 21, 0),
{
    let mut i: usize = 0;
    while i < 21
        invariant
            i <= 21,
            contains_any(h@, attention_phrase_table(), 21, 0) == contains_any(h@, attention_phrase_table(), 21, i as int),
        decreases 21 - i,
    {
        if contains(h, &chars_of(attention_phrase_exec(i))) {
            return true;
        }
        i += 1;
    }
    false
}

pub open spec fn declaration_phrase_table() -> spec_fn(int) -> Seq<char> {
    |i: int| declaration_phrase(i)
}

fn has_declaration(h: &Vec<char>) -> (r: bool)
    ensures
        r == contains_any(h@, declaration_phrase_table(), 24, 0),
{
    let mut i: usize = 0;
    while i < 24
        invariant
            i <= 24,
            contains_any(h@, declaration_phrase_table(), 24, 0) == contains_any(h@, declaration_phrase_table(), 24, i as int),
        decreases 24 - i,
    {
        if contains(h, &chars_of(declaration_phrase_exec(i))) {
            return true;
        }
        i += 1;
    }
    false
}

/// How many times `c` occurs.
pub open spec fn count_char(s: Seq<char>, c: char) -> nat
    decreases s.len(),
{
    if s.len() == 0 {
        0
    } else {
        count_char(s.drop_last(), c) + if s.last() == c {
            1nat
        } else {
            0nat
        }
    }
}

fn count_char_exec(s: &Vec<char>, c: char) -> (r: usize)
    ensures
        r == count_char(s@, c),
        r <= s@.len(),
{
    let mut n: usize = 0;
    let mut i: usize = 0;
    while i < s.len()
        invariant
            i <= s@.len(),
            n <= i,
            n == count_char(s@.take(i as int), c),
        decreases s@.len() - i,
    {
        assert(s@.take(i + 1).drop_last() =~= s@.take(i as int));
        if s[i] == c {
            n += 1;
        }
        i += 1;
    }
    assert(s@.take(s@.len() as int) =~= s@);
    n
}

/// How many of the first `k` words are longer than three bytes and occur more than once.
pub open spec fn repeated_long_words(ws: Seq<Seq<char>>, k: int) -> nat
    decreases k,
{
    if k <= 0 || k > ws.len() {
        0
    } else {
        repeated_long_words(ws, k - 1) + if byte_len(ws[k - 1]) > 3 && count_in(ws, ws[k - 1]) >= 2 {
            1nat
        } else {
            0nat
        }
    }
}

pub open spec fn min_nat(a: nat, b: nat) -> nat {
    if a < b {
        a
    } else {
        b
    }
}

/// Points for citing scripture: 40%, and 15% more for several references.
pub open spec fn refs_points(nrefs: nat) -> nat {
    if nrefs > 0 {
        4000nat + if nrefs > 1 {
            1500nat
        } else {
            0nat
        }
    } else {
        0nat
    }
}

/// Points for the kinds of phrase a lowercase text holds: an introduction to scripture
/// (15%), a structural point (25%), a call for attention (20%), a declaration of faith (20%).
pub open spec fn phrase_points(lower: Seq<char>) -> nat {
    (if contains_any(lower, scripture_intro_table(), 10, 0) {
        1500nat
    } else {
        0nat
    }) + (if contains_any(lower, key_point_phrase_table(), 23, 0) {
        2500nat
    } else {
        0nat
    }) + (if contains_any(lower, attention_phrase_table(), 21, 0) {
        2000nat
    } else {
        0nat
    }) + (if contains_any(lower, declaration_phrase_table(), 24, 0) {
        2000nat
    } else {
        0nat
    })
}

/// Points for cadence: questions and exclamations (10% each, at most 20% for each kind)
/// and repeated longer words (5% each, at most 20%).
pub open spec fn cadence_points(text: Seq<char>, lower: Seq<char>) -> nat {
    let ws = words_seq(lower);
    let reps = if ws.len() >= 4 {
        repeated_long_words(ws, ws.len() as int)
    } else {
        0
    };
    min_nat(count_char(text, '?') * 1000, 2000) + min_nat(count_char(text, '!') * 1000, 2000)
        + min_nat(reps * 500, 2000)
}

/// The score of a segment's text before it is damped for brevity, in basis points.
pub open spec fn raw_score(text: Seq<char>) -> nat {
    let lower = lowercase_of(text);
    refs_points(scripture_refs_spec(text).len()) + phrase_points(lower) + cadence_points(text, lower)
}

fn phrase_points_exec(lower: &Vec<char>) -> (r: u64)
    ensures
        r as nat == phrase_points(lower@),
        r <= 8000,
{
    let a: u64 = if has_scripture_intro(lower) {
        1500
    } else {
        0
    };
    let b: u64 = if has_key_point(lower) {
        2500
    } else {
        0
    };
    let c: u64 = if has_attention_call(lower) {
        2000
    } else {
        0
    };
    let d: u64 = if has_declaration(lower) {
        2000
    } else {
        0
    };
    a + b + c + d
}

fn cadence_points_exec(tc: &Vec<char>, lower: &Vec<char>) -> (r: u64)
    ensures
        r as nat == cadence_points(tc@, lower@),
        r <= 6000,
{
    let q = count_char_exec(tc, '?') as u64;
    let qp: u64 = if q >= 2 {
        2000
    } else {
        q * 1000
    };
    let e = count_char_exec(tc, '!') as u64;
    let ep: u64 = if e >= 2 {
        2000
    } else {
        e * 1000
    };
    let ws = words(lower);
    let rp: u64 = if ws.len() >= 4 {
        let reps = repeated_long_words_exec(&ws) as u64;
        if reps >= 4 {
            2000
        } else {
            reps * 500
        }
    } else {
        0
    };
    qp + ep + rp
}

/// How much a segment matters, in basis points: its raw score damped to 40% for a fragment
/// shorter than 2.5 s and to 75% for one shorter than 5 s, at most 10000.
pub open spec fn importance_spec(seg: (nat, nat, Seq<char>)) -> nat {
    let raw = raw_score(seg.2);
    let dur = seg.1 - seg.0;
    let damped = if dur < 2500 {
        raw * 4 / 10
    } else if dur < 5000 {
        raw * 3 / 4
    } else {
        raw
    };
    min_nat(damped, 10000)
}

fn repeated_long_words_exec(ws: &Vec<Vec<char>>) -> (r: usize)
    ensures
        r == repeated_long_words(views(ws@), ws@.len() as int),
        r <= ws@.len(),
{
    let ghost wv = views(ws@);
    let mut n: usize = 0;
    let mut i: usize = 0;
    while i < ws.len()
        invariant
            i <= ws@.len(),
            wv == views(ws@),
            n <= i,
            n == repeated_long_words(wv, i as int),
        decreases ws@.len() - i,
    {
        assert(wv[i as int] == ws@[i as int]@);
        if utf8_byte_len(&ws[i]) > 3 && count_in_exec(ws, &ws[i]) >= 2 {
            n += 1;
        }
        i += 1;
    }
    n
}

/// Scores how much a transcript segment matters for highlights and titles, in basis points
/// (10000 is the top score).
pub fn segment_importance_score(seg: &TranscriptSegment) -> (r: u64)
    ensures
        r as nat == importance_spec(seg_view(*seg)),
        r <= 10000,
{
    let tc = chars_of(seg.text.as_str());
    let lower = chars_of(&to_lowercase(seg.text.as_str()));
    let refs = detect_scripture_references(seg.text.as_str(), seg.start_ms);
    assert(ref_pairs(refs@).len() == refs@.len());
    let rp: u64 = if refs.len() > 0 {
        if refs.len() > 1 {
            5500
        } else {
            4000
        }
    } else {
        0
    };
    let score = rp + phrase_points_exec(&lower) + cadence_points_exec(&tc, &lower);
    let dur: u64 = if seg.end_ms >= seg.start_ms {
        seg.end_ms - seg.start_ms
    } else {
        0
    };
    let damped = if dur < 2500 {
        score * 4 / 10
    } else if dur < 5000 {
        score * 3 / 4
    } else {
        score
    };
    if damped > 10000 {
        10000
    } else {
        damped
    }
}


// ---------------------------------------------------------------------------
// Identifiers.
// ---------------------------------------------------------------------------

/// Calls `uuid::Uuid::new_v4` and returns its 128 bits. The bits are random; as the crate's
/// source sets them, the version nibble is 4 and the variant bits are `10`.
#[verifier::external_body]
fn new_id() -> (r: u128)
    ensures
        (r >> 76u128) & 0xFu128 == 4,
        (r >> 62u128) & 0x3u128 == 2,
{
    uuid::Uuid::new_v4().as_u128()
}

// ---------------------------------------------------------------------------
// Timestamps written by a model.
// ---------------------------------------------------------------------------

pub open spec fn is_char(c: char) -> spec_fn(char) -> bool {
    |x: char| x == c
}

/// `str::trim_matches(c)`.
pub open spec fn trim_char(s: Seq<char>, c: char) -> Seq<char> {
    let t = s.skip(lead_from(s, is_char(c), 0) as int);
    t.take(t.len() - trail_from(t, is_char(c), t.len() as int))
}

/// A timestamp a model wrote as text (`[HH:MM:SS]`, `MM:SS`, or seconds, each part a number
/// as `f32::from_str` reads it), in milliseconds. A part with a minus sign, an infinity or a
/// NaN gives none, for a count of milliseconds cannot hold it.
pub open spec fn timestamp_text_spec(s: Seq<char>) -> Option<nat> {
    let t = trim_char(trim_char(trim_seq(s), '['), ']');
    let p = split_char(t, ':');
    let v: Option<nat> = if p.len() == 3 {
        match (float_milli(p[0]), float_milli(p[1]), float_milli(p[2])) {
            (Some(h), Some(m), Some(x)) => Some(h * 3600 + m * 60 + x),
            _ => None,
        }
    } else if p.len() == 2 {
        match (float_milli(p[0]), float_milli(p[1])) {
            (Some(m), Some(x)) => Some(m * 60 + x),
            _ => None,
        }
    } else {
        float_milli(t)
    };
    match v {
        Some(x) => if x <= u64::MAX {
            Some(x)
        } else {
            None
        },
        None => None,
    }
}

fn trim_char_exec(s: &Vec<char>, c: char) -> (r: Vec<char>)
    ensures
        r@ == trim_char(s@, c),
{
    let mut a: usize = 0;
    while a < s.len() && s[a] == c
        invariant
            a <= s@.len(),
            lead_from(s@, is_char(c), 0) == a + lead_from(s@, is_char(c), a as int),
        decreases s@.len() - a,
    {
        a += 1;
    }
    proof {
        lemma_lead_from(s@, is_char(c), 0);
    }
    let t = copy_range(s, a, s.len());
    assert(t@ =~= s@.skip(a as int));
    let mut b: usize = t.len();
    while b > 0 && t[b - 1] == c
        invariant
            b <= t@.len(),
            trail_from(t@, is_char(c), t@.len() as int) == (t@.len() - b) + trail_from(
                t@,
                is_char(c),
                b as int,
            ),
        decreases b,
    {
        b -= 1;
    }
    proof {
        lemma_trail_from(t@, is_char(c), t@.len() as int);
    }
    let r = copy_range(&t, 0, b);
    assert(r@ =~= t@.take(b as int));
    r
}

/// A timestamp as a model wrote it in its JSON: a number (already in milliseconds), text,
/// or any other JSON value.
#[derive(Debug, Clone)]
pub enum TimestampValue {
    Number(u64),
    Text(String),
    Other,
}

/// Reads a timestamp a model wrote: a number as it is, text as `parse_timestamp_text` reads
/// it, anything else not at all.
pub fn parse_timestamp_value(val: &TimestampValue) -> (r: Option<u64>)
    ensures
        match *val {
            TimestampValue::Number(ms) => r == Some(ms),
            TimestampValue::Text(s) => match r {
                Some(v) => timestamp_text_spec(s@) == Some(v as nat),
                None => timestamp_text_spec(s@) is None,
            },
            TimestampValue::Other => r is None,
        },
{
    match val {
        TimestampValue::Number(ms) => Some(*ms),
        TimestampValue::Text(s) => parse_timestamp_text(s.as_str()),
        TimestampValue::Other => None,
    }
}

/// Reads a timestamp that a model wrote as text, in milliseconds.
pub fn parse_timestamp_text(s: &str) -> (r: Option<u64>)
    ensures
        match r {
            Some(v) => timestamp_text_spec(s@) == Some(v as nat),
            None => timestamp_text_spec(s@) is None,
        },
{
    let t = trim_char_exec(&trim_char_exec(&trim(&chars_of(s)), '['), ']');
    let p = split_char_exec(&t, ':');
    let ghost pv = views(p@);
    let v: Option<u128> = if p.len() == 3 {
        assert(pv[0] == p@[0]@ && pv[1] == p@[1]@ && pv[2] == p@[2]@);
        match (parse_float_milli(&p[0]), parse_float_milli(&p[1]), parse_float_milli(&p[2])) {
            (Some(h), Some(m), Some(x)) => Some(h as u128 * 3600 + m as u128 * 60 + x as u128),
            _ => {
                proof {
                    let a = float_milli(pv[0]);
                    let b = float_milli(pv[1]);
                    let c = float_milli(pv[2]);
                    if a is Some && b is Some && c is Some {
                        let (hv, mv, xv) = (a->0, b->0, c->0);
                        assert(hv * 3600 + mv * 60 + xv > u64::MAX) by (nonlinear_arith)
                            requires
                                hv > u64::MAX || mv > u64::MAX || xv > u64::MAX,
                        ;
                    }
                }
                return None;
            },
        }
    } else if p.len() == 2 {
        assert(pv[0] == p@[0]@ && pv[1] == p@[1]@);
        match (parse_float_milli(&p[0]), parse_float_milli(&p[1])) {
            (Some(m), Some(x)) => Some(m as u128 * 60 + x as u128),
            _ => {
                proof {
                    let b = float_milli(pv[0]);
                    let c = float_milli(pv[1]);
                    if b is Some && c is Some {
                        let (mv, xv) = (b->0, c->0);
                        assert(mv * 60 + xv > u64::MAX) by (nonlinear_arith)
                            requires
                                mv > u64::MAX || xv > u64::MAX,
                        ;
                    }
                }
                return None;
            },
        }
    } else {
        match parse_float_milli(&t) {
            Some(x) => Some(x as u128),
            None => None,
        }
    };
    match v {
        Some(x) => if x <= u64::MAX as u128 {
            Some(x as u64)
        } else {
            None
        },
        None => None,
    }
}

// ---------------------------------------------------------------------------
// Chapters and clips proposed by a model.
// ---------------------------------------------------------------------------

/// A chapter as a model proposed it: whatever fields it gave.
#[derive(Debug, Clone)]
pub struct ChapterCandidate {
    pub title: Option<String>,
    pub summary: Option<String>,
    pub start_ms: Option<u64>,
    pub end_ms: Option<u64>,
}

pub open spec fn opt_or(o: Option<String>, d: Seq<char>) -> Seq<char> {
    match o {
        Some(s) => s@,
        None => d,
    }
}

/// The chapters made of the proposals, the `k`-th kept one taking `ids[k]`: title (or
/// "Sermon Section") and summary trimmed, kept when both times are given and the end comes
/// after the start.
pub open spec fn candidate_chapters(c: Seq<ChapterCandidate>, ids: Seq<u128>) -> Seq<(u128, Seq<char>, Seq<char>, nat, nat)>
    decreases c.len(),
{
    if c.len() == 0 {
        seq![]
    } else {
        let r = candidate_chapters(c.drop_last(), ids);
        let x = c.last();
        match (x.start_ms, x.end_ms) {
            (Some(a), Some(b)) => if b > a {
                r.push((ids[r.len() as int], trim_seq(opt_or(x.title, "Sermon Section"@)), trim_seq(opt_or(x.summary, ""@)), a as nat, b as nat))
            } else {
                r
            },
            _ => r,
        }
    }
}

proof fn lemma_candidate_chapters_len(c: Seq<ChapterCandidate>, ids: Seq<u128>)
    ensures
        candidate_chapters(c, ids).len() <= c.len(),
    decreases c.len(),
{
    if c.len() > 0 {
        lemma_candidate_chapters_len(c.drop_last(), ids);
    }
}

fn opt_trim_or(o: &Option<String>, d: &str) -> (r: String)
    ensures
        r@ == trim_seq(opt_or(*o, d@)),
{
    match o {
        Some(s) => string_of(&trim(&chars_of(s.as_str()))),
        None => string_of(&trim(&chars_of(d))),
    }
}

/// The chapters a model proposed, with the given identifiers, validated: kept only with both
/// times and the end after the start, then put in order without overlaps.
pub fn chapters_from_candidates(candidates: &[ChapterCandidate], ids: &[u128]) -> (r: Vec<Chapter>)
    requires
        ids@.len() >= candidates@.len(),
    ensures
        chapters_view(r@) == clip_chapters(sort_chapters(candidate_chapters(candidates@, ids@))),
{
    let mut out: Vec<Chapter> = Vec::new();
    let mut i: usize = 0;
    assert(chapters_view(out@) =~= seq![]);
    while i < candidates.len()
        invariant
            i <= candidates@.len(),
            ids@.len() >= candidates@.len(),
            chapters_view(out@) == candidate_chapters(candidates@.take(i as int), ids@),
            out@.len() <= i,
        decreases candidates@.len() - i,
    {
        assert(candidates@.take(i + 1).drop_last() =~= candidates@.take(i as int));
        assert(candidates@.take(i + 1).last() == candidates@[i as int]);
        let x = &candidates[i];
        match (x.start_ms, x.end_ms) {
            (Some(a), Some(b)) => {
                if b > a {
                    let ghost before = chapters_view(out@);
                    let id = ids[out.len()];
                    let ch = Chapter {
                        id,
                        title: opt_trim_or(&x.title, "Sermon Section"),
                        summary: opt_trim_or(&x.summary, ""),
                        start_ms: a,
                        end_ms: b,
                    };
                    out.push(ch);
                    assert(chapters_view(out@) =~= before.push(chapter_view(ch)));
                }
            },
            _ => {},
        }
        i += 1;
    }
    assert(candidates@.take(candidates@.len() as int) =~= candidates@);
    validate_chapters(out)
}

/// The chapters a model proposed, each with a fresh random identifier, validated as
/// `chapters_from_candidates` does.
pub fn parse_and_validate_chapters(candidates: &[ChapterCandidate]) -> (r: Vec<Chapter>)
    ensures
        exists|ids: Seq<u128>|
            ids.len() == candidates@.len() && chapters_view(r@) == clip_chapters(
                sort_chapters(candidate_chapters(candidates@, ids)),
            ),
{
    let mut ids: Vec<u128> = Vec::new();
    let mut i: usize = 0;
    while i < candidates.len()
        invariant
            i <= candidates@.len(),
            ids@.len() == i,
        decreases candidates@.len() - i,
    {
        ids.push(new_id());
        i += 1;
    }
    let r = chapters_from_candidates(candidates, &ids);
    assert(ids@.len() == candidates@.len());
    r
}


/// A clip as a model proposed it: whatever fields it gave, its score in basis points.
#[derive(Debug, Clone)]
pub struct HighlightCandidate {
    pub title: Option<String>,
    pub start_ms: Option<u64>,
    pub end_ms: Option<u64>,
    pub reason: Option<String>,
    pub suggested_hook_text: Option<String>,
    pub score_bp: Option<u64>,
}

/// A proposed clip that was turned down, with what was known of it and why.
#[derive(Debug, Clone)]
pub struct DiscardedCandidate {
    pub title: String,
    pub start_ms: Option<u64>,
    pub end_ms: Option<u64>,
    pub duration_ms: Option<i64>,
    pub reason: String,
}

/// The shortest clip the offline analysis makes, in milliseconds.
pub const CLIP_MIN_MS: u64 = 30000;

/// The longest clip, in milliseconds: the offline analysis makes none longer, and a longer
/// clip that a model proposes is cut to this length.
pub const CLIP_MAX_MS: u64 = 90000;

/// The shortest clip a model may propose, in milliseconds.
pub const PROPOSED_MIN_MS: u64 = 25000;

/// The longest clip a model may propose, in milliseconds.
pub const PROPOSED_MAX_MS: u64 = 120000;

/// (id, title, start, end, score, reason, hook) of a highlight.
pub open spec fn highlight_view(h: Highlight) -> (u128, Seq<char>, nat, nat, nat, Seq<char>, Seq<char>) {
    (h.id, h.title@, h.start_ms as nat, h.end_ms as nat, h.score_bp as nat, h.reason@, h.suggested_hook_text@)
}

pub open spec fn highlights_view(s: Seq<Highlight>) -> Seq<(u128, Seq<char>, nat, nat, nat, Seq<char>, Seq<char>)> {
    s.map_values(|h: Highlight| highlight_view(h))
}

/// (title, start, end, duration, reason) of a turned-down clip.
pub open spec fn discard_view(d: DiscardedCandidate) -> (Seq<char>, Option<u64>, Option<u64>, Option<int>, Seq<char>) {
    (d.title@, d.start_ms, d.end_ms, match d.duration_ms {
        Some(x) => Some(x as int),
        None => None,
    }, d.reason@)
}

/// `x` clamped into the range of `i64`.
pub open spec fn sat_i64(x: int) -> int {
    if x < i64::MIN {
        i64::MIN as int
    } else if x > i64::MAX {
        i64::MAX as int
    } else {
        x
    }
}

pub open spec fn discards_view(s: Seq<DiscardedCandidate>) -> Seq<(Seq<char>, Option<u64>, Option<u64>, Option<int>, Seq<char>)> {
    s.map_values(|d: DiscardedCandidate| discard_view(d))
}

/// Milliseconds as whole seconds, halves rounded to even (as `{:.0}` prints seconds).
pub open spec fn round_secs(ms: nat) -> nat {
    let q = ms / 1000;
    let r = ms % 1000;
    if r > 500 {
        q + 1
    } else if r < 500 {
        q
    } else if q % 2 == 0 {
        q
    } else {
        q + 1
    }
}

/// The reason a proposed clip shorter than the minimum is turned down.
pub open spec fn too_short_reason(dur: nat) -> Seq<char> {
    dec(round_secs(dur)) + "s < min 25s"@
}

/// The reason a proposed clip longer than the maximum is turned down.
pub open spec fn too_long_reason(dur: nat) -> Seq<char> {
    dec(round_secs(dur)) + "s > max 120s"@
}

/// The clips a model proposed, split into kept highlights (the `k`-th taking `ids[k]`) and
/// turned-down ones: a clip needs a start, an end after it, and from 25 s to 120 s; one longer
/// than 90 s is cut to its first 90 s. Its title defaults to "Sermon Highlight", its reason to
/// "High-impact moment.", its hook to its title, its score to 9000 basis points (at most 10000).
pub open spec fn split_candidates(c: Seq<HighlightCandidate>, ids: Seq<u128>) -> (
    Seq<(u128, Seq<char>, nat, nat, nat, Seq<char>, Seq<char>)>,
    Seq<(Seq<char>, Option<u64>, Option<u64>, Option<int>, Seq<char>)>,
)
    decreases c.len(),
{
    if c.len() == 0 {
        (seq![], seq![])
    } else {
        let (v, d) = split_candidates(c.drop_last(), ids);
        let x = c.last();
        let title = trim_seq(opt_or(x.title, "Sermon Highlight"@));
        match x.start_ms {
            None => (v, d.push((title, None, None, None, "Missing start"@))),
            Some(a) => match x.end_ms {
                None => (v, d.push((title, Some(a), None, None, "Missing end"@))),
                Some(b) => if b <= a {
                    (v, d.push((title, Some(a), Some(b), Some(sat_i64(b - a)), "end <= start"@)))
                } else if b - a < 25000 {
                    (v, d.push((title, Some(a), Some(b), Some(b - a), too_short_reason((b - a) as nat))))
                } else if b - a > 120000 {
                    (v, d.push((title, Some(a), Some(b), Some(sat_i64(b - a)), too_long_reason((b - a) as nat))))
                } else {
                    let score: nat = match x.score_bp {
                        Some(sc) => if sc > 10000 {
                            10000
                        } else {
                            sc as nat
                        },
                        None => 9000,
                    };
                    (v.push((
                        ids[v.len() as int],
                        title,
                        a as nat,
                        if b - a > 90000 {
                            (a + 90000) as nat
                        } else {
                            b as nat
                        },
                        score,
                        trim_seq(opt_or(x.reason, "High-impact moment."@)),
                        trim_seq(opt_or(x.suggested_hook_text, title)),
                    )), d)
                },
            },
        }
    }
}

pub(crate) fn round_secs_exec(ms: u64) -> (r: u64)
    ensures
        r as nat == round_secs(ms as nat),
{
    let q = ms / 1000;
    let r = ms % 1000;
    if r > 500 {
        q + 1
    } else if r < 500 {
        q
    } else if q % 2 == 0 {
        q
    } else {
        q + 1
    }
}

/// The clips a model proposed, with the given identifiers for the kept ones: the kept
/// highlights, the turned-down clips with their reasons, and how many were proposed.
pub fn highlights_from_candidates(candidates: &[HighlightCandidate], ids: &[u128]) -> (r: (
    Vec<Highlight>,
    Vec<DiscardedCandidate>,
    usize,
))
    requires
        ids@.len() >= candidates@.len(),
    ensures
        highlights_view(r.0@) == split_candidates(candidates@, ids@).0,
        discards_view(r.1@) == split_candidates(candidates@, ids@).1,
        r.2 == candidates@.len(),
{
    let mut valid: Vec<Highlight> = Vec::new();
    let mut disc: Vec<DiscardedCandidate> = Vec::new();
    let mut i: usize = 0;
    assert(highlights_view(valid@) =~= seq![]);
    assert(discards_view(disc@) =~= seq![]);
    while i < candidates.len()
        invariant
            i <= candidates@.len(),
            ids@.len() >= candidates@.len(),
            valid@.len() <= i,
            highlights_view(valid@) == split_candidates(candidates@.take(i as int), ids@).0,
            discards_view(disc@) == split_candidates(candidates@.take(i as int), ids@).1,
        decreases candidates@.len() - i,
    {
        assert(candidates@.take(i + 1).drop_last() =~= candidates@.take(i as int));
        assert(candidates@.take(i + 1).last() == candidates@[i as int]);
        let x = &candidates[i];
        let title = opt_trim_or(&x.title, "Sermon Highlight");
        let ghost vb = highlights_view(valid@);
        let ghost db = discards_view(disc@);
        match x.start_ms {
            None => {
                let d = DiscardedCandidate {
                    title,
                    start_ms: None,
                    end_ms: None,
                    duration_ms: None,
                    reason: string_of(&chars_of("Missing start")),
                };
                disc.push(d);
                assert(discards_view(disc@) =~= db.push(discard_view(d)));
            },
            Some(a) => match x.end_ms {
                None => {
                    let d = DiscardedCandidate {
                        title,
                        start_ms: Some(a),
                        end_ms: None,
                        duration_ms: None,
                        reason: string_of(&chars_of("Missing end")),
                    };
                    disc.push(d);
                    assert(discards_view(disc@) =~= db.push(discard_view(d)));
                },
                Some(b) => {
                    if b <= a {
                        let diff: i128 = b as i128 - a as i128;
                        let dur: i64 = if diff < i64::MIN as i128 {
                            i64::MIN
                        } else {
                            diff as i64
                        };
                        let d = DiscardedCandidate {
                            title,
                            start_ms: Some(a),
                            end_ms: Some(b),
                            duration_ms: Some(dur),
                            reason: string_of(&chars_of("end <= start")),
                        };
                        disc.push(d);
                        assert(discards_view(disc@) =~= db.push(discard_view(d)));
                    } else if b - a < PROPOSED_MIN_MS || b - a > PROPOSED_MAX_MS {
                        let dur = b - a;
                        let mut reason = fmt_u64(round_secs_exec(dur));
                        if dur < PROPOSED_MIN_MS {
                            push_str(&mut reason, "s < min 25s");
                        } else {
                            push_str(&mut reason, "s > max 120s");
                        }
                        let dur_ms: i64 = if dur > i64::MAX as u64 {
                            i64::MAX
                        } else {
                            dur as i64
                        };
                        let d = DiscardedCandidate {
                            title,
                            start_ms: Some(a),
                            end_ms: Some(b),
                            duration_ms: Some(dur_ms),
                            reason: string_of(&reason),
                        };
                        disc.push(d);
                        assert(discards_view(disc@) =~= db.push(discard_view(d)));
                    } else {
                        let score: u64 = match x.score_bp {
                            Some(sc) => if sc > 10000 {
                                10000
                            } else {
                                sc
                            },
                            None => 9000,
                        };
                        let hook = match &x.suggested_hook_text {
                            Some(h) => string_of(&trim(&chars_of(h.as_str()))),
                            None => string_of(&trim(&chars_of(title.as_str()))),
                        };
                        let end = if b - a > CLIP_MAX_MS {
                            a + CLIP_MAX_MS
                        } else {
                            b
                        };
                        let h = Highlight {
                            id: ids[valid.len()],
                            title,
                            start_ms: a,
                            end_ms: end,
                            score_bp: score,
                            reason: opt_trim_or(&x.reason, "High-impact moment."),
                            suggested_hook_text: hook,
                        };
                        valid.push(h);
                        assert(highlights_view(valid@) =~= vb.push(highlight_view(h)));
                    }
                },
            },
        }
        i += 1;
    }
    assert(candidates@.take(candidates@.len() as int) =~= candidates@);
    (valid, disc, candidates.len())
}

/// The clips a model proposed, the kept ones each with a fresh random identifier, sorted as
/// `highlights_from_candidates` does.
pub fn parse_and_validate_highlights_detailed(candidates: &[HighlightCandidate]) -> (r: (
    Vec<Highlight>,
    Vec<DiscardedCandidate>,
    usize,
))
    ensures
        exists|ids: Seq<u128>|
            ids.len() == candidates@.len() && highlights_view(r.0@) == split_candidates(
                candidates@,
                ids,
            ).0 && discards_view(r.1@) == split_candidates(candidates@, ids).1,
        r.2 == candidates@.len(),
{
    let mut ids: Vec<u128> = Vec::new();
    let mut i: usize = 0;
    while i < candidates.len()
        invariant
            i <= candidates@.len(),
            ids@.len() == i,
        decreases candidates@.len() - i,
    {
        ids.push(new_id());
        i += 1;
    }
    highlights_from_candidates(candidates, &ids)
}

/// The kept highlights among the clips a model proposed.
pub fn parse_and_validate_highlights(candidates: &[HighlightCandidate]) -> (r: Vec<Highlight>)
    ensures
        exists|ids: Seq<u128>|
            ids.len() == candidates@.len() && highlights_view(r@) == split_candidates(
                candidates@,
                ids,
            ).0,
{
    parse_and_validate_highlights_detailed(candidates).0
}


/// Every proposed clip is either kept or turned down, never both; every kept highlight lasts
/// from 25 s to 90 s and scores at most 10000 basis points.
pub proof fn lemma_candidates_accounted(c: Seq<HighlightCandidate>, ids: Seq<u128>)
    ensures
        split_candidates(c, ids).0.len() + split_candidates(c, ids).1.len() == c.len(),
        forall|k: int|
            0 <= k < split_candidates(c, ids).0.len() ==> (#[trigger] split_candidates(c, ids).0[k]).2
                + 25000 <= split_candidates(c, ids).0[k].3 <= split_candidates(c, ids).0[k].2 + 90000
                && split_candidates(c, ids).0[k].4 <= 10000,
    decreases c.len(),
{
    if c.len() > 0 {
        lemma_candidates_accounted(c.drop_last(), ids);
        let (v0, d0) = split_candidates(c.drop_last(), ids);
        let v = split_candidates(c, ids).0;
        assert forall|k: int| 0 <= k < v.len() implies (#[trigger] v[k]).2 + 25000 <= v[k].3
            <= v[k].2 + 90000 && v[k].4 <= 10000 by {
            if k < v0.len() {
                assert(v[k] == v0[k]);
            }
        }
    }
}


/// A proposed clip is kept: it has a start, and an end 25 s to 120 s after it.
pub open spec fn proposal_kept(x: HighlightCandidate) -> bool {
    match (x.start_ms, x.end_ms) {
        (Some(a), Some(b)) => a < b && 25000 <= b - a <= 120000,
        _ => false,
    }
}

/// The indices of the kept proposals, in order.
pub open spec fn kept_sources(c: Seq<HighlightCandidate>) -> Seq<int>
    decreases c.len(),
{
    if c.len() == 0 {
        seq![]
    } else if proposal_kept(c.last()) {
        kept_sources(c.drop_last()).push(c.len() - 1)
    } else {
        kept_sources(c.drop_last())
    }
}

/// The kept highlights follow the order of the clips proposed: the `k`-th comes from the
/// proposal at `kept_sources(c)[k]`, starting where it starts, and later highlights come from
/// later proposals.
pub proof fn lemma_kept_in_proposed_order(c: Seq<HighlightCandidate>, ids: Seq<u128>)
    ensures
        kept_sources(c).len() == split_candidates(c, ids).0.len(),
        forall|k: int|
            0 <= k < kept_sources(c).len() ==> 0 <= #[trigger] kept_sources(c)[k] < c.len()
                && proposal_kept(c[kept_sources(c)[k]]) && c[kept_sources(c)[k]].start_ms == Some(
                split_candidates(c, ids).0[k].2 as u64,
            ),
        forall|a: int, b: int|
            0 <= a < b < kept_sources(c).len() ==> #[trigger] kept_sources(c)[a]
                < #[trigger] kept_sources(c)[b],
    decreases c.len(),
{
    if c.len() > 0 {
        let d = c.drop_last();
        lemma_kept_in_proposed_order(d, ids);
        let s0 = kept_sources(d);
        let v0 = split_candidates(d, ids).0;
        let s = kept_sources(c);
        let v = split_candidates(c, ids).0;
        assert forall|k: int| 0 <= k < s0.len() implies s[k] == s0[k] && v[k] == v0[k] && c[s0[k]]
            == d[s0[k]] by {
        }
    }
}

// ---------------------------------------------------------------------------
// Titles, reasons and hooks.
// ---------------------------------------------------------------------------

/// Themes that name a clip after the scripture it teaches.
pub open spec fn clip_theme(i: int) -> Seq<char> {
    if i == 0 {
        "all things work together"@
    } else if i == 1 {
        "god is able"@
    } else if i == 2 {
        "by the grace of god"@
    } else if i == 3 {
        "grace of god"@
    } else if i == 4 {
        "love is patient"@
    } else if i == 5 {
        "fear not"@
    } else if i == 6 {
        "faith moves mountains"@
    } else if i == 7 {
        "he is risen"@
    } else {
        "salvation"@
    }
}

fn clip_theme_exec(i: usize) -> (r: &'static str)
    requires
        i < 9,
    ensures
        r@ == clip_theme(i as int),
{
    match i {
        0 => "all things work together",
        1 => "god is able",
        2 => "by the grace of god",
        3 => "grace of god",
        4 => "love is patient",
        5 => "fear not",
        6 => "faith moves mountains",
        7 => "he is risen",
        _ => "salvation",
    }
}

/// The lowercase text holds one of the phrases.
pub open spec fn any_in(h: Seq<char>, ps: Seq<Seq<char>>) -> bool {
    exists|k: int| 0 <= k < ps.len() && contains_seq(h, #[trigger] ps[k])
}

pub open spec fn strs_view(ps: Seq<&str>) -> Seq<Seq<char>> {
    ps.map_values(|p: &str| p@)
}

/// Whether the text holds one of the phrases.
pub fn contains_any_of(h: &Vec<char>, ps: &[&str]) -> (r: bool)
    ensures
        r == any_in(h@, strs_view(ps@)),
{
    let mut i: usize = 0;
    while i < ps.len()
        invariant
            i <= ps@.len(),
            forall|k: int| 0 <= k < i ==> !contains_seq(h@, #[trigger] strs_view(ps@)[k]),
        decreases ps@.len() - i,
    {
        if contains(h, &chars_of(ps[i])) {
            assert(contains_seq(h@, strs_view(ps@)[i as int]));
            return true;
        }
        i += 1;
    }
    false
}

pub open spec fn non_alnum_end() -> spec_fn(char) -> bool {
    |c: char| !crate::text::unicode_alphanumeric(c)
}

/// `str::trim_end_matches(|c| !c.is_alphanumeric())`.
pub open spec fn trim_end_non_alnum(s: Seq<char>) -> Seq<char> {
    s.take(s.len() - trail_from(s, non_alnum_end(), s.len() as int))
}

fn trim_end_non_alnum_exec(s: &Vec<char>) -> (r: Vec<char>)
    ensures
        r@ == trim_end_non_alnum(s@),
{
    let mut b: usize = s.len();
    while b > 0 && !crate::text::is_alphanumeric(s[b - 1])
        invariant
            b <= s@.len(),
            trail_from(s@, non_alnum_end(), s@.len() as int) == (s@.len() - b) + trail_from(
                s@,
                non_alnum_end(),
                b as int,
            ),
        decreases b,
    {
        b -= 1;
    }
    proof {
        lemma_trail_from(s@, non_alnum_end(), s@.len() as int);
    }
    let r = copy_range(s, 0, b);
    assert(r@ =~= s@.take(b as int));
    r
}

/// The first `n` words (or all of them).
pub open spec fn first_words(ws: Seq<Seq<char>>, n: nat) -> Seq<Seq<char>> {
    if ws.len() <= n {
        ws
    } else {
        ws.take(n as int)
    }
}

fn first_words_exec(ws: &Vec<Vec<char>>, n: usize) -> (r: Vec<Vec<char>>)
    ensures
        views(r@) == first_words(views(ws@), n as nat),
{
    let m = if ws.len() <= n {
        ws.len()
    } else {
        n
    };
    let mut out: Vec<Vec<char>> = Vec::new();
    let mut i: usize = 0;
    while i < m
        invariant
            i <= m <= ws@.len(),
            m == if ws@.len() <= n { ws@.len() } else { n as nat },
            views(out@) == views(ws@).take(i as int),
        decreases m - i,
    {
        let ghost before = views(out@);
        let c = copy_range(&ws[i], 0, ws[i].len());
        assert(c@ =~= ws@[i as int]@);
        out.push(c);
        assert(views(out@) =~= before.push(c@));
        assert(views(ws@).take(i + 1) =~= views(ws@).take(i as int).push(views(ws@)[i as int]));
        i += 1;
    }
    assert(views(ws@).take(m as int) =~= first_words(views(ws@), n as nat));
    out
}

/// A marked moment's title: the label, then the first six words of the segment without
/// trailing punctuation when they are longer than ten bytes.
pub open spec fn marker_title_spec(label: Seq<char>, text: Seq<char>) -> Seq<char> {
    let c = trim_end_non_alnum(join_with(first_words(words_seq(text), 6), " "@));
    if byte_len(c) > 10 {
        label + ": "@ + c
    } else {
        label
    }
}

/// Titles a clip by its marker and the start of the segment that holds it.
pub fn format_clip_marker_title(label: &str, seg: &TranscriptSegment) -> (r: String)
    ensures
        r@ == marker_title_spec(label@, seg.text@),
{
    string_of(&marker_title_exec(label, seg))
}

fn marker_title_exec(label: &str, seg: &TranscriptSegment) -> (r: Vec<char>)
    ensures
        r@ == marker_title_spec(label@, seg.text@),
{
    let ws = words(&chars_of(seg.text.as_str()));
    let w6 = first_words_exec(&ws, 6);
    let c = trim_end_non_alnum_exec(&join(&w6, &chars_of(" ")));
    let mut out = chars_of(label);
    if utf8_byte_len(&c) > 10 {
        push_str(&mut out, ": ");
        push_all(&mut out, &c);
    }
    out
}

/// The index of the last of the largest scores (as `Iterator::max_by` picks), for a
/// non-empty list.
pub open spec fn last_max_index(sc: Seq<nat>) -> int
    decreases sc.len(),
{
    if sc.len() <= 1 {
        0
    } else {
        let k = last_max_index(sc.drop_last());
        if sc.last() >= sc[k] {
            sc.len() - 1
        } else {
            k
        }
    }
}

proof fn lemma_last_max_index(sc: Seq<nat>)
    requires
        sc.len() > 0,
    ensures
        0 <= last_max_index(sc) < sc.len(),
        forall|j: int| 0 <= j < sc.len() ==> #[trigger] sc[j] <= sc[last_max_index(sc)],
    decreases sc.len(),
{
    if sc.len() > 1 {
        lemma_last_max_index(sc.drop_last());
        let k = last_max_index(sc.drop_last());
        assert forall|j: int| 0 <= j < sc.len() implies #[trigger] sc[j] <= sc[last_max_index(sc)] by {
            if j < sc.len() - 1 {
                assert(sc.drop_last()[j] == sc[j]);
            }
        }
    }
}

pub open spec fn scores_view(v: Seq<u64>) -> Seq<nat> {
    v.map_values(|x: u64| x as nat)
}

fn last_max_index_exec(sc: &Vec<u64>) -> (r: usize)
    requires
        sc@.len() > 0,
    ensures
        r as int == last_max_index(scores_view(sc@)),
        r < sc@.len(),
{
    let ghost sv = scores_view(sc@);
    let mut k: usize = 0;
    let mut i: usize = 1;
    while i < sc.len()
        invariant
            1 <= i <= sc@.len(),
            sv == scores_view(sc@),
            k < i,
            k as int == last_max_index(sv.take(i as int)),
        decreases sc@.len() - i,
    {
        assert(sv.take(i + 1).drop_last() =~= sv.take(i as int));
        assert(sv.take(i + 1).last() == sc@[i as int] as nat);
        assert(sv.take(i as int)[k as int] == sc@[k as int] as nat);
        if sc[i] >= sc[k] {
            k = i;
        }
        i += 1;
    }
    assert(sv.take(sc@.len() as int) =~= sv);
    k
}

pub open spec fn importance_scores(segs: Seq<(nat, nat, Seq<char>)>) -> Seq<nat> {
    segs.map_values(|s: (nat, nat, Seq<char>)| importance_spec(s))
}

fn importance_scores_exec(segs: &[TranscriptSegment]) -> (r: Vec<u64>)
    ensures
        scores_view(r@) == importance_scores(segs_view(segs@)),
        r@.len() == segs@.len(),
        forall|k: int| 0 <= k < r@.len() ==> r@[k] <= 10000,
{
    let mut out: Vec<u64> = Vec::new();
    let mut i: usize = 0;
    while i < segs.len()
        invariant
            i <= segs@.len(),
            scores_view(out@) == importance_scores(segs_view(segs@)).take(i as int),
            forall|k: int| 0 <= k < out@.len() ==> out@[k] <= 10000,
        decreases segs@.len() - i,
    {
        let x = segment_importance_score(&segs[i]);
        assert(segs_view(segs@)[i as int] == seg_view(segs@[i as int]));
        let ghost before = scores_view(out@);
        out.push(x);
        assert(scores_view(out@) =~= before.push(x as nat));
        assert(importance_scores(segs_view(segs@)).take(i + 1) =~= importance_scores(
            segs_view(segs@),
        ).take(i as int).push(importance_scores(segs_view(segs@))[i as int]));
        i += 1;
    }
    assert(importance_scores(segs_view(segs@)).take(segs@.len() as int) =~= importance_scores(
        segs_view(segs@),
    ));
    out
}

/// The first reference cited in one of the segments `i..n`.
pub open spec fn first_ref_from(segs: Seq<(nat, nat, Seq<char>)>, i: int, n: int) -> Option<Seq<char>>
    decreases n - i,
{
    if i < 0 || i >= n || i >= segs.len() {
        None
    } else {
        let r = scripture_refs_spec(segs[i].2);
        if r.len() > 0 {
            Some(r[0].1)
        } else {
            first_ref_from(segs, i + 1, n)
        }
    }
}

/// The longest start of `s` that takes at most `n` bytes.
pub open spec fn byte_prefix(s: Seq<char>, n: nat) -> Seq<char>
    decreases s.len(),
{
    if s.len() == 0 || byte_len(s) <= n {
        s
    } else {
        byte_prefix(s.drop_last(), n)
    }
}

fn byte_prefix_exec(s: &Vec<char>, n: u128) -> (r: Vec<char>)
    ensures
        r@ == byte_prefix(s@, n as nat),
{
    let mut k: usize = s.len();
    assert(s@.take(s@.len() as int) =~= s@);
    loop
        invariant
            k <= s@.len(),
            byte_prefix(s@, n as nat) == byte_prefix(s@.take(k as int), n as nat),
        decreases k,
    {
        let t = copy_range(s, 0, k);
        assert(t@ =~= s@.take(k as int));
        if k == 0 || utf8_byte_len(&t) <= n {
            return t;
        }
        assert(s@.take(k as int).drop_last() =~= s@.take(k - 1));
        k -= 1;
    }
}

/// A chapter's title: "Teaching from" the first reference cited in its first ten segments,
/// else the first words (four to eight, within 50 bytes, cut at a space, without trailing
/// punctuation) of its most important segment, else the fallback.
pub open spec fn chapter_title_spec(segs: Seq<(nat, nat, Seq<char>)>, fallback: Seq<char>) -> Seq<char> {
    match first_ref_from(segs, 0, 10) {
        Some(r) => "Teaching from "@ + r,
        None => if segs.len() == 0 {
            fallback
        } else {
            let best = segs[last_max_index(importance_scores(segs))];
            let w8 = first_words(words_seq(best.2), 8);
            if w8.len() >= 4 {
                let p0 = join_with(w8, " "@);
                let p1 = if byte_len(p0) > 50 {
                    let t = byte_prefix(p0, 50);
                    match rfind_seq(t, " "@) {
                        Some(k) => t.take(k),
                        None => t,
                    }
                } else {
                    p0
                };
                let p2 = trim_end_non_alnum(p1);
                if p2.len() > 0 {
                    p2
                } else {
                    fallback
                }
            } else {
                fallback
            }
        },
    }
}

fn first_ref_exec(segs: &[TranscriptSegment], n: usize) -> (r: Option<String>)
    ensures
        match r {
            Some(x) => first_ref_from(segs_view(segs@), 0, n as int) == Some(x@),
            None => first_ref_from(segs_view(segs@), 0, n as int) is None,
        },
{
    let ghost sv = segs_view(segs@);
    let mut i: usize = 0;
    while i < n && i < segs.len()
        invariant
            i <= n,
            sv == segs_view(segs@),
            first_ref_from(sv, 0, n as int) == first_ref_from(sv, i as int, n as int),
        decreases n - i,
    {
        let refs = detect_scripture_references(segs[i].text.as_str(), segs[i].start_ms);
        if refs.len() > 0 {
            assert(ref_pairs(refs@)[0] == (refs@[0].book@, refs@[0].reference@));
            return Some(refs[0].reference.clone());
        }
        assert(ref_pairs(refs@).len() == 0);
        i += 1;
    }
    None
}

/// Titles a chapter from its segments, falling back to the given name.
pub fn derive_chapter_title(segments: &[TranscriptSegment], fallback: &str) -> (r: String)
    ensures
        r@ == chapter_title_spec(segs_view(segments@), fallback@),
{
    if let Some(r) = first_ref_exec(segments, 10) {
        let mut out = chars_of("Teaching from ");
        push_str(&mut out, r.as_str());
        return string_of(&out);
    }
    if segments.len() == 0 {
        return string_of(&chars_of(fallback));
    }
    let sc = importance_scores_exec(segments);
    let b = last_max_index_exec(&sc);
    assert(segs_view(segments@)[b as int] == seg_view(segments@[b as int]));
    let ws = words(&chars_of(segments[b].text.as_str()));
    let w8 = first_words_exec(&ws, 8);
    if w8.len() >= 4 {
        let p0 = join(&w8, &chars_of(" "));
        let p1 = if utf8_byte_len(&p0) > 50 {
            let t = byte_prefix_exec(&p0, 50);
            match rfind(&t, &chars_of(" ")) {
                Some(k) => {
                    proof {
                        crate::text::lemma_rfind_below(t@, " "@, t@.len() - " "@.len());
                    }
                    let r = copy_range(&t, 0, k);
                    assert(r@ =~= t@.take(k as int));
                    r
                },
                None => t,
            }
        } else {
            p0
        };
        let p2 = trim_end_non_alnum_exec(&p1);
        if p2.len() > 0 {
            return string_of(&p2);
        }
    }
    string_of(&chars_of(fallback))
}


/// Each word with its first letter upper-cased, joined with spaces.
pub open spec fn cap_words(t: Seq<char>) -> Seq<char> {
    join_with(words_seq(t).map_values(|w: Seq<char>| capitalized(w)), " "@)
}

fn capitalized_exec(w: &Vec<char>) -> (r: Vec<char>)
    ensures
        r@ == capitalized(w@),
{
    if w.len() == 0 {
        return Vec::new();
    }
    let mut out = char_to_uppercase(w[0]);
    let rest = copy_range(w, 1, w.len());
    assert(rest@ =~= w@.skip(1));
    push_all(&mut out, &rest);
    out
}

fn cap_words_exec(t: &Vec<char>) -> (r: Vec<char>)
    ensures
        r@ == cap_words(t@),
{
    let ws = words(t);
    let ghost wv = views(ws@);
    let mut cs: Vec<Vec<char>> = Vec::new();
    let mut i: usize = 0;
    while i < ws.len()
        invariant
            i <= ws@.len(),
            wv == views(ws@),
            views(cs@) == wv.map_values(|w: Seq<char>| capitalized(w)).take(i as int),
        decreases ws@.len() - i,
    {
        let c = capitalized_exec(&ws[i]);
        let ghost before = views(cs@);
        cs.push(c);
        assert(views(cs@) =~= before.push(c@));
        assert(wv.map_values(|w: Seq<char>| capitalized(w)).take(i + 1) =~= wv.map_values(
            |w: Seq<char>| capitalized(w),
        ).take(i as int).push(capitalized(wv[i as int])));
        i += 1;
    }
    assert(wv.map_values(|w: Seq<char>| capitalized(w)).take(ws@.len() as int) =~= wv.map_values(
        |w: Seq<char>| capitalized(w),
    ));
    join(&cs, &chars_of(" "))
}

/// A clip that cites scripture is named after its first reference and, when the segment
/// speaks of one of the themes, that theme; else "Teaching:" and the reference.
pub open spec fn theme_title(r: Seq<char>, lower: Seq<char>, t: int) -> Seq<char>
    decreases 9 - t,
{
    if t < 0 || t >= 9 {
        "Teaching: "@ + r
    } else if contains_seq(lower, clip_theme(t)) {
        r + ": "@ + cap_words(clip_theme(t))
    } else {
        theme_title(r, lower, t + 1)
    }
}

/// The title from the first of the segments `i..` that cites scripture.
pub open spec fn scripture_title_from(segs: Seq<(nat, nat, Seq<char>)>, i: int) -> Option<Seq<char>>
    decreases segs.len() - i,
{
    if i < 0 || i >= segs.len() {
        None
    } else {
        let r = scripture_refs_spec(segs[i].2);
        if r.len() > 0 {
            Some(theme_title(r[0].1, lowercase_of(segs[i].2), 0))
        } else {
            scripture_title_from(segs, i + 1)
        }
    }
}

/// The label of a marked moment in a lowercase text: a structural point (`kind` 0), a call
/// for attention (1), or a declaration of faith (2).
pub open spec fn moment_label(lower: Seq<char>, kind: int) -> Option<Seq<char>> {
    if kind == 0 {
        if any_in(lower, seq!["point number one"@, "first point"@, "firstly"@]) {
            Some("Point 1"@)
        } else if any_in(lower, seq!["point number two"@, "second point"@, "secondly"@]) {
            Some("Point 2"@)
        } else if any_in(lower, seq!["point number three"@, "third point"@, "thirdly"@]) {
            Some("Point 3"@)
        } else if any_in(lower, seq!["finally"@, "in conclusion"@, "in closing"@]) {
            Some("In Conclusion"@)
        } else {
            None
        }
    } else if kind == 1 {
        if any_in(lower, seq!["listen to me"@, "listen closely"@, "don't miss this"@, "hear me"@]) {
            Some("Listen Closely"@)
        } else if any_in(lower, seq!["write this down"@, "take this down"@]) {
            Some("Take Note"@)
        } else {
            None
        }
    } else {
        if any_in(lower, seq!["the lord told me"@, "god told me"@]) {
            Some("Prophetic Word"@)
        } else if any_in(lower, seq!["by the grace of god"@, "grace of god"@]) {
            Some("The Grace of God"@)
        } else if any_in(lower, seq!["jesus said"@, "jesus christ"@]) {
            Some("Declaration of Faith"@)
        } else {
            None
        }
    }
}

/// The marker title from the first of the segments `i..` with a moment of the kind.
pub open spec fn label_title_from(segs: Seq<(nat, nat, Seq<char>)>, i: int, kind: int) -> Option<Seq<char>>
    decreases segs.len() - i,
{
    if i < 0 || i >= segs.len() {
        None
    } else {
        match moment_label(lowercase_of(segs[i].2), kind) {
            Some(l) => Some(marker_title_spec(l, segs[i].2)),
            None => label_title_from(segs, i + 1, kind),
        }
    }
}

/// The first words (three to seven, without trailing punctuation) of the clip's most
/// important segment, else "Key Preaching Moment".
pub open spec fn punchline_title(segs: Seq<(nat, nat, Seq<char>)>) -> Seq<char> {
    if segs.len() == 0 {
        "Key Preaching Moment"@
    } else {
        let best = segs[last_max_index(importance_scores(segs))];
        let w7 = first_words(words_seq(best.2), 7);
        let p = trim_end_non_alnum(join_with(w7, " "@));
        if w7.len() >= 3 && p.len() > 0 {
            p
        } else {
            "Key Preaching Moment"@
        }
    }
}

/// A clip's title: from the scripture it teaches, else its first structural point, call for
/// attention or declaration of faith, else its punchline.
pub open spec fn clip_title_spec(segs: Seq<(nat, nat, Seq<char>)>) -> Seq<char> {
    match scripture_title_from(segs, 0) {
        Some(t) => t,
        None => match label_title_from(segs, 0, 0) {
            Some(t) => t,
            None => match label_title_from(segs, 0, 1) {
                Some(t) => t,
                None => match label_title_from(segs, 0, 2) {
                    Some(t) => t,
                    None => punchline_title(segs),
                },
            },
        },
    }
}

fn theme_title_exec(r: &Vec<char>, lower: &Vec<char>) -> (out: Vec<char>)
    ensures
        out@ == theme_title(r@, lower@, 0),
{
    let mut t: usize = 0;
    while t < 9
        invariant
            t <= 9,
            theme_title(r@, lower@, 0) == theme_title(r@, lower@, t as int),
        decreases 9 - t,
    {
        let th = chars_of(clip_theme_exec(t));
        if contains(lower, &th) {
            let mut out = copy_range(r, 0, r.len());
            assert(out@ =~= r@);
            push_str(&mut out, ": ");
            push_all(&mut out, &cap_words_exec(&th));
            return out;
        }
        t += 1;
    }
    let mut out = chars_of("Teaching: ");
    push_all(&mut out, r);
    out
}

fn moment_label_exec(lower: &Vec<char>, kind: u8) -> (r: Option<&'static str>)
    requires
        kind <= 2,
    ensures
        match r {
            Some(l) => moment_label(lower@, kind as int) == Some(l@),
            None => moment_label(lower@, kind as int) is None,
        },
{
    if kind == 0 {
        let a = ["point number one", "first point", "firstly"];
        let b = ["point number two", "second point", "secondly"];
        let c = ["point number three", "third point", "thirdly"];
        let d = ["finally", "in conclusion", "in closing"];
        assert(strs_view(a@) =~= seq!["point number one"@, "first point"@, "firstly"@]);
        assert(strs_view(b@) =~= seq!["point number two"@, "second point"@, "secondly"@]);
        assert(strs_view(c@) =~= seq!["point number three"@, "third point"@, "thirdly"@]);
        assert(strs_view(d@) =~= seq!["finally"@, "in conclusion"@, "in closing"@]);
        if contains_any_of(lower, &a) {
            Some("Point 1")
        } else if contains_any_of(lower, &b) {
            Some("Point 2")
        } else if contains_any_of(lower, &c) {
            Some("Point 3")
        } else if contains_any_of(lower, &d) {
            Some("In Conclusion")
        } else {
            None
        }
    } else if kind == 1 {
        let a = ["listen to me", "listen closely", "don't miss this", "hear me"];
        let b = ["write this down", "take this down"];
        assert(strs_view(a@) =~= seq!["listen to me"@, "listen closely"@, "don't miss this"@, "hear me"@]);
        assert(strs_view(b@) =~= seq!["write this down"@, "take this down"@]);
        if contains_any_of(lower, &a) {
            Some("Listen Closely")
        } else if contains_any_of(lower, &b) {
            Some("Take Note")
        } else {
            None
        }
    } else {
        let a = ["the lord told me", "god told me"];
        let b = ["by the grace of god", "grace of god"];
        let c = ["jesus said", "jesus christ"];
        assert(strs_view(a@) =~= seq!["the lord told me"@, "god told me"@]);
        assert(strs_view(b@) =~= seq!["by the grace of god"@, "grace of god"@]);
        assert(strs_view(c@) =~= seq!["jesus said"@, "jesus christ"@]);
        if contains_any_of(lower, &a) {
            Some("Prophetic Word")
        } else if contains_any_of(lower, &b) {
            Some("The Grace of God")
        } else if contains_any_of(lower, &c) {
            Some("Declaration of Faith")
        } else {
            None
        }
    }
}

fn label_title_exec(segs: &[TranscriptSegment], kind: u8) -> (r: Option<Vec<char>>)
    requires
        kind <= 2,
    ensures
        match r {
            Some(t) => label_title_from(segs_view(segs@), 0, kind as int) == Some(t@),
            None => label_title_from(segs_view(segs@), 0, kind as int) is None,
        },
{
    let ghost sv = segs_view(segs@);
    let mut i: usize = 0;
    while i < segs.len()
        invariant
            i <= segs@.len(),
            kind <= 2,
            sv == segs_view(segs@),
            label_title_from(sv, 0, kind as int) == label_title_from(sv, i as int, kind as int),
        decreases segs@.len() - i,
    {
        assert(sv[i as int] == seg_view(segs@[i as int]));
        let lower = chars_of(&to_lowercase(segs[i].text.as_str()));
        if let Some(l) = moment_label_exec(&lower, kind) {
            return Some(marker_title_exec(l, &segs[i]));
        }
        i += 1;
    }
    None
}

fn punchline_exec(segs: &[TranscriptSegment]) -> (r: Vec<char>)
    ensures
        r@ == punchline_title(segs_view(segs@)),
{
    if segs.len() == 0 {
        return chars_of("Key Preaching Moment");
    }
    let sc = importance_scores_exec(segs);
    let b = last_max_index_exec(&sc);
    assert(segs_view(segs@)[b as int] == seg_view(segs@[b as int]));
    let w7 = first_words_exec(&words(&chars_of(segs[b].text.as_str())), 7);
    let p = trim_end_non_alnum_exec(&join(&w7, &chars_of(" ")));
    if w7.len() >= 3 && p.len() > 0 {
        p
    } else {
        chars_of("Key Preaching Moment")
    }
}

/// Titles a highlight clip from its segments.
pub fn derive_clip_title(segs: &[TranscriptSegment]) -> (r: String)
    ensures
        r@ == clip_title_spec(segs_view(segs@)),
{
    let ghost sv = segs_view(segs@);
    let mut i: usize = 0;
    while i < segs.len()
        invariant
            i <= segs@.len(),
            sv == segs_view(segs@),
            scripture_title_from(sv, 0) == scripture_title_from(sv, i as int),
        decreases segs@.len() - i,
    {
        assert(sv[i as int] == seg_view(segs@[i as int]));
        let refs = detect_scripture_references(segs[i].text.as_str(), segs[i].start_ms);
        if refs.len() > 0 {
            assert(ref_pairs(refs@)[0] == (refs@[0].book@, refs@[0].reference@));
            let lower = chars_of(&to_lowercase(segs[i].text.as_str()));
            let t = theme_title_exec(&chars_of(refs[0].reference.as_str()), &lower);
            return string_of(&t);
        }
        assert(ref_pairs(refs@).len() == 0);
        i += 1;
    }
    if let Some(t) = label_title_exec(segs, 0) {
        return string_of(&t);
    }
    if let Some(t) = label_title_exec(segs, 1) {
        return string_of(&t);
    }
    if let Some(t) = label_title_exec(segs, 2) {
        return string_of(&t);
    }
    string_of(&punchline_exec(segs))
}


/// The references added in turn to a list, each once.
pub open spec fn add_refs(acc: Seq<Seq<char>>, rs: Seq<(Seq<char>, Seq<char>)>) -> Seq<Seq<char>>
    decreases rs.len(),
{
    if rs.len() == 0 {
        acc
    } else {
        let a = add_refs(acc, rs.drop_last());
        if a.contains(rs.last().1) {
            a
        } else {
            a.push(rs.last().1)
        }
    }
}

/// The references cited in a clip, each once, in the order first cited.
pub open spec fn clip_scriptures(segs: Seq<(nat, nat, Seq<char>)>) -> Seq<Seq<char>>
    decreases segs.len(),
{
    if segs.len() == 0 {
        seq![]
    } else {
        add_refs(clip_scriptures(segs.drop_last()), scripture_refs_spec(segs.last().2))
    }
}

/// Some segment's lowercase text holds one of the phrases.
pub open spec fn any_seg_has(segs: Seq<(nat, nat, Seq<char>)>, ps: Seq<Seq<char>>) -> bool {
    exists|k: int| 0 <= k < segs.len() && any_in(lowercase_of(#[trigger] segs[k].2), ps)
}

pub open spec fn key_point_markers() -> Seq<Seq<char>> {
    seq!["point number"@, "first point"@, "second point"@, "finally"@, "in conclusion"@]
}

pub open spec fn imperative_markers() -> Seq<Seq<char>> {
    seq!["listen to me"@, "look at verse"@, "write this down"@, "don't miss this"@, "hear the word"@]
}

pub open spec fn theological_markers() -> Seq<Seq<char>> {
    seq!["the lord told me"@, "by the grace of god"@, "jesus said"@, "salvation"@, "blood of jesus"@]
}

/// What the audio adds to a reason: a note on vocal elevation from 4500 basis points of
/// energy, on heightened energy from 2500.
pub open spec fn audio_note(e: nat) -> Seq<char> {
    if e >= 4500 {
        " paired with dynamic vocal elevation and acoustic emphasis"@
    } else if e >= 2500 {
        " with heightened oratorical energy"@
    } else {
        ""@
    }
}

/// Why a clip was chosen, from the scripture it cites and the markers it holds.
pub open spec fn clip_reason_spec(segs: Seq<(nat, nat, Seq<char>)>, energy: nat) -> Seq<char> {
    let sc = clip_scriptures(segs);
    let note = audio_note(energy);
    let key = any_seg_has(segs, key_point_markers());
    let imp = any_seg_has(segs, imperative_markers());
    let theo = any_seg_has(segs, theological_markers());
    if sc.len() > 0 {
        let s = join_with(sc, ", "@);
        if imp {
            "Scripture focus on "@ + s + " with an urgent attention call"@ + note + "."@
        } else if key {
            "Structural teaching from "@ + s + note + "."@
        } else {
            "Powerful scripture exposition on "@ + s + note + "."@
        }
    } else if key {
        if imp {
            "Core sermon key point delivered with direct audience engagement"@ + note + "."@
        } else {
            "Structural sermon principle highlighting key takeaway"@ + note + "."@
        }
    } else if imp {
        "Urgent oratorical exhortation and call to action"@ + note + "."@
    } else if theo {
        "Theological declaration of faith and conviction"@ + note + "."@
    } else {
        "High-impact preaching moment with oratorical emphasis"@ + note + "."@
    }
}

fn add_refs_exec(acc: &mut Vec<Vec<char>>, refs: &Vec<crate::models::ScriptureRef>)
    ensures
        views(final(acc)@) == add_refs(views(old(acc)@), ref_pairs(refs@)),
{
    let ghost a0 = views(acc@);
    let ghost rp = ref_pairs(refs@);
    let mut i: usize = 0;
    while i < refs.len()
        invariant
            i <= refs@.len(),
            rp == ref_pairs(refs@),
            a0 == views(old(acc)@),
            views(acc@) == add_refs(a0, rp.take(i as int)),
        decreases refs@.len() - i,
    {
        assert(rp.take(i + 1).drop_last() =~= rp.take(i as int));
        assert(rp.take(i + 1).last() == (refs@[i as int].book@, refs@[i as int].reference@));
        let r = chars_of(refs[i].reference.as_str());
        let ghost av = views(acc@);
        let mut found = false;
        let mut j: usize = 0;
        while j < acc.len()
            invariant
                j <= acc@.len(),
                av == views(acc@),
                found == (exists|k: int| 0 <= k < j && av[k] == r@),
            decreases acc@.len() - j,
        {
            assert(av[j as int] == acc@[j as int]@);
            if same_chars_vec(&acc[j], &r) {
                found = true;
            }
            j += 1;
        }
        proof {
            if found {
                let k = choose|k: int| 0 <= k < acc@.len() && av[k] == r@;
                assert(av.contains(r@));
            } else {
                assert(!av.contains(r@));
            }
        }
        if !found {
            acc.push(r);
            assert(views(acc@) =~= av.push(r@));
        }
        i += 1;
    }
    assert(rp.take(refs@.len() as int) =~= rp);
}

fn same_chars_vec(a: &Vec<char>, b: &Vec<char>) -> (r: bool)
    ensures
        r == (a@ == b@),
{
    crate::text::same_chars(a, b)
}

fn any_seg_has_exec(segs: &[TranscriptSegment], ps: &[&str]) -> (r: bool)
    ensures
        r == any_seg_has(segs_view(segs@), strs_view(ps@)),
{
    let ghost sv = segs_view(segs@);
    let mut i: usize = 0;
    while i < segs.len()
        invariant
            i <= segs@.len(),
            sv == segs_view(segs@),
            forall|k: int| 0 <= k < i ==> !any_in(lowercase_of(#[trigger] sv[k].2), strs_view(ps@)),
        decreases segs@.len() - i,
    {
        assert(sv[i as int] == seg_view(segs@[i as int]));
        let lower = chars_of(&to_lowercase(segs[i].text.as_str()));
        if contains_any_of(&lower, ps) {
            assert(any_in(lowercase_of(sv[i as int].2), strs_view(ps@)));
            return true;
        }
        i += 1;
    }
    false
}

/// Explains why a highlight clip was chosen, from its segments and the highest audio energy
/// in it (basis points).
pub fn derive_clip_reason(segs: &[TranscriptSegment], max_audio_energy_bp: u64) -> (r: String)
    ensures
        r@ == clip_reason_spec(segs_view(segs@), max_audio_energy_bp as nat),
{
    let ghost sv = segs_view(segs@);
    let mut sc: Vec<Vec<char>> = Vec::new();
    let mut i: usize = 0;
    assert(views(sc@) =~= clip_scriptures(sv.take(0)));
    while i < segs.len()
        invariant
            i <= segs@.len(),
            sv == segs_view(segs@),
            views(sc@) == clip_scriptures(sv.take(i as int)),
        decreases segs@.len() - i,
    {
        assert(sv.take(i + 1).drop_last() =~= sv.take(i as int));
        assert(sv.take(i + 1).last() == seg_view(segs@[i as int]));
        let refs = detect_scripture_references(segs[i].text.as_str(), segs[i].start_ms);
        add_refs_exec(&mut sc, &refs);
        i += 1;
    }
    assert(sv.take(segs@.len() as int) =~= sv);
    let kp = ["point number", "first point", "second point", "finally", "in conclusion"];
    let im = ["listen to me", "look at verse", "write this down", "don't miss this", "hear the word"];
    let th = ["the lord told me", "by the grace of god", "jesus said", "salvation", "blood of jesus"];
    assert(strs_view(kp@) =~= key_point_markers());
    assert(strs_view(im@) =~= imperative_markers());
    assert(strs_view(th@) =~= theological_markers());
    let key = any_seg_has_exec(segs, &kp);
    let imp = any_seg_has_exec(segs, &im);
    let theo = any_seg_has_exec(segs, &th);
    let note: &str = if max_audio_energy_bp >= 4500 {
        " paired with dynamic vocal elevation and acoustic emphasis"
    } else if max_audio_energy_bp >= 2500 {
        " with heightened oratorical energy"
    } else {
        ""
    };
    let mut out: Vec<char>;
    if sc.len() > 0 {
        let s = join(&sc, &chars_of(", "));
        if imp {
            out = chars_of("Scripture focus on ");
            push_all(&mut out, &s);
            push_str(&mut out, " with an urgent attention call");
        } else if key {
            out = chars_of("Structural teaching from ");
            push_all(&mut out, &s);
        } else {
            out = chars_of("Powerful scripture exposition on ");
            push_all(&mut out, &s);
        }
    } else if key {
        if imp {
            out = chars_of("Core sermon key point delivered with direct audience engagement");
        } else {
            out = chars_of("Structural sermon principle highlighting key takeaway");
        }
    } else if imp {
        out = chars_of("Urgent oratorical exhortation and call to action");
    } else if theo {
        out = chars_of("Theological declaration of faith and conviction");
    } else {
        out = chars_of("High-impact preaching moment with oratorical emphasis");
    }
    push_str(&mut out, note);
    push_str(&mut out, ".");
    string_of(&out)
}

/// A clip's hook: the trimmed text of its best-scoring segment, cut to 117 characters and
/// "..." when it is longer than 120 bytes; the title when there is no segment.
pub open spec fn clip_hook_spec(segs: Seq<(nat, nat, Seq<char>)>, scores: Seq<nat>, title: Seq<char>) -> Seq<char> {
    let n = if segs.len() < scores.len() {
        segs.len()
    } else {
        scores.len()
    };
    if n == 0 {
        title
    } else {
        let t = trim_seq(segs[last_max_index(scores.take(n as int))].2);
        if byte_len(t) <= 120 {
            t
        } else {
            (if t.len() <= 117 {
                t
            } else {
                t.take(117)
            }) + "..."@
        }
    }
}

/// Picks a clip's hook: the text of its best-scoring segment.
pub fn derive_clip_hook(segs: &[TranscriptSegment], scores: &[u64], title: &str) -> (r: String)
    ensures
        r@ == clip_hook_spec(segs_view(segs@), scores_view(scores@), title@),
{
    let n = if segs.len() < scores.len() {
        segs.len()
    } else {
        scores.len()
    };
    if n == 0 {
        return string_of(&chars_of(title));
    }
    let mut sc: Vec<u64> = Vec::new();
    let mut i: usize = 0;
    while i < n
        invariant
            i <= n <= scores@.len(),
            sc@ == scores@.take(i as int),
        decreases n - i,
    {
        sc.push(scores[i]);
        assert(sc@ =~= scores@.take(i + 1));
        i += 1;
    }
    assert(scores_view(sc@) =~= scores_view(scores@).take(n as int));
    let b = last_max_index_exec(&sc);
    assert(segs_view(segs@)[b as int] == seg_view(segs@[b as int]));
    let t = trim(&chars_of(segs[b].text.as_str()));
    if utf8_byte_len(&t) <= 120 {
        return string_of(&t);
    }
    let mut out = if t.len() <= 117 {
        copy_range(&t, 0, t.len())
    } else {
        copy_range(&t, 0, 117)
    };
    assert(t@.len() <= 117 ==> out@ =~= t@);
    push_str(&mut out, "...");
    string_of(&out)
}


// ---------------------------------------------------------------------------
// Where the topic changes.
// ---------------------------------------------------------------------------

/// The longer words (over four bytes) of a text, lowercased.
pub open spec fn long_lower_words(ws: Seq<Seq<char>>) -> Seq<Seq<char>>
    decreases ws.len(),
{
    if ws.len() == 0 {
        seq![]
    } else {
        let r = long_lower_words(ws.drop_last());
        let l = lowercase_of(ws.last());
        if byte_len(l) > 4 {
            r.push(l)
        } else {
            r
        }
    }
}

/// Words added in turn to a list, each once.
pub open spec fn add_distinct(acc: Seq<Seq<char>>, ws: Seq<Seq<char>>) -> Seq<Seq<char>>
    decreases ws.len(),
{
    if ws.len() == 0 {
        acc
    } else {
        let a = add_distinct(acc, ws.drop_last());
        if a.contains(ws.last()) {
            a
        } else {
            a.push(ws.last())
        }
    }
}

/// The distinct longer lowercase words of the segments `lo..hi`.
pub open spec fn window_words(segs: Seq<(nat, nat, Seq<char>)>, lo: int, hi: int) -> Seq<Seq<char>>
    decreases hi - lo,
{
    if hi <= lo || hi > segs.len() || lo < 0 {
        seq![]
    } else {
        add_distinct(window_words(segs, lo, hi - 1), long_lower_words(words_seq(segs[hi - 1].2)))
    }
}

/// How many words of `a` are in `b`.
pub open spec fn shared_count(a: Seq<Seq<char>>, b: Seq<Seq<char>>) -> nat
    decreases a.len(),
{
    if a.len() == 0 {
        0
    } else {
        shared_count(a.drop_last(), b) + if b.contains(a.last()) {
            1nat
        } else {
            0nat
        }
    }
}

/// The candidate boundaries every `win` segments from `i` on, each with the words its two
/// neighbouring windows share and the words they hold together.
pub open spec fn window_scores(segs: Seq<(nat, nat, Seq<char>)>, win: int, i: int) -> Seq<(nat, nat, nat)>
    decreases segs.len() - i,
{
    if win <= 0 || i < win || i + win >= segs.len() {
        seq![]
    } else {
        let a = window_words(segs, i - win, i);
        let b = window_words(segs, i, i + win);
        let inter = shared_count(a, b);
        (if a.len() > 0 && b.len() > 0 {
            seq![(i as nat, inter, (a.len() + b.len() - inter) as nat)]
        } else {
            seq![]
        }) + window_scores(segs, win, i + win)
    }
}

/// `x` shares a smaller part of its words than `y` (its topic changes more).
pub open spec fn changes_more(x: (nat, nat, nat), y: (nat, nat, nat)) -> bool {
    x.1 * y.2 < y.1 * x.2
}

pub open spec fn boundary_insert_pos(s: Seq<(nat, nat, nat)>, x: (nat, nat, nat), j: int) -> int
    decreases s.len() - j,
{
    if j < 0 || j >= s.len() {
        s.len() as int
    } else if changes_more(x, s[j]) {
        j
    } else {
        boundary_insert_pos(s, x, j + 1)
    }
}

/// Stable sort, the biggest change of topic first.
pub open spec fn sort_boundaries(s: Seq<(nat, nat, nat)>) -> Seq<(nat, nat, nat)>
    decreases s.len(),
{
    if s.len() == 0 {
        s
    } else {
        let t = sort_boundaries(s.drop_last());
        t.insert(boundary_insert_pos(t, s.last(), 0), s.last())
    }
}

pub open spec fn nat_insert_pos(s: Seq<nat>, x: nat, j: int) -> int
    decreases s.len() - j,
{
    if j < 0 || j >= s.len() {
        s.len() as int
    } else if x < s[j] {
        j
    } else {
        nat_insert_pos(s, x, j + 1)
    }
}

/// Sort in increasing order.
pub open spec fn sort_nats(s: Seq<nat>) -> Seq<nat>
    decreases s.len(),
{
    if s.len() == 0 {
        s
    } else {
        let t = sort_nats(s.drop_last());
        t.insert(nat_insert_pos(t, s.last(), 0), s.last())
    }
}

/// The segment indices where chapters begin: the `target - 1` places, every `win` segments,
/// where the words of the windows before and after differ most, in increasing order.
pub open spec fn boundaries_spec(segs: Seq<(nat, nat, Seq<char>)>, target: nat) -> Seq<nat> {
    if segs.len() < 4 || target <= 1 {
        seq![]
    } else {
        let w = segs.len() / (target * 2);
        let win: nat = if w > 3 {
            w
        } else {
            3
        };
        let sorted = sort_boundaries(window_scores(segs, win as int, win as int));
        let m: nat = if sorted.len() < target - 1 {
            sorted.len()
        } else {
            (target - 1) as nat
        };
        sort_nats(sorted.take(m as int).map_values(|x: (nat, nat, nat)| x.0))
    }
}

fn long_lower_words_exec(text: &str) -> (r: Vec<Vec<char>>)
    ensures
        views(r@) == long_lower_words(words_seq(text@)),
{
    let ws = words(&chars_of(text));
    let ghost wv = views(ws@);
    let mut out: Vec<Vec<char>> = Vec::new();
    let mut i: usize = 0;
    while i < ws.len()
        invariant
            i <= ws@.len(),
            wv == views(ws@),
            wv == words_seq(text@),
            views(out@) == long_lower_words(wv.take(i as int)),
        decreases ws@.len() - i,
    {
        assert(wv.take(i + 1).drop_last() =~= wv.take(i as int));
        assert(wv.take(i + 1).last() == ws@[i as int]@);
        let l = chars_of(&to_lowercase(&string_of(&ws[i])));
        if utf8_byte_len(&l) > 4 {
            let ghost before = views(out@);
            out.push(l);
            assert(views(out@) =~= before.push(l@));
        }
        i += 1;
    }
    assert(wv.take(ws@.len() as int) =~= wv);
    out
}

fn contains_word(ws: &Vec<Vec<char>>, w: &Vec<char>) -> (r: bool)
    ensures
        r == views(ws@).contains(w@),
{
    let ghost wv = views(ws@);
    let mut j: usize = 0;
    while j < ws.len()
        invariant
            j <= ws@.len(),
            wv == views(ws@),
            forall|k: int| 0 <= k < j ==> wv[k] != w@,
        decreases ws@.len() - j,
    {
        assert(wv[j as int] == ws@[j as int]@);
        if same_chars_vec(&ws[j], w) {
            assert(wv[j as int] == w@);
            return true;
        }
        j += 1;
    }
    false
}

fn add_distinct_exec(acc: &mut Vec<Vec<char>>, ws: &Vec<Vec<char>>)
    ensures
        views(final(acc)@) == add_distinct(views(old(acc)@), views(ws@)),
{
    let ghost a0 = views(acc@);
    let ghost wv = views(ws@);
    let mut i: usize = 0;
    while i < ws.len()
        invariant
            i <= ws@.len(),
            wv == views(ws@),
            a0 == views(old(acc)@),
            views(acc@) == add_distinct(a0, wv.take(i as int)),
        decreases ws@.len() - i,
    {
        assert(wv.take(i + 1).drop_last() =~= wv.take(i as int));
        assert(wv.take(i + 1).last() == ws@[i as int]@);
        if !contains_word(acc, &ws[i]) {
            let c = copy_range(&ws[i], 0, ws[i].len());
            assert(c@ =~= ws@[i as int]@);
            let ghost before = views(acc@);
            acc.push(c);
            assert(views(acc@) =~= before.push(c@));
        }
        i += 1;
    }
    assert(wv.take(ws@.len() as int) =~= wv);
}

fn window_words_exec(segs: &[TranscriptSegment], lo: usize, hi: usize) -> (r: Vec<Vec<char>>)
    requires
        lo <= hi <= segs@.len(),
    ensures
        views(r@) == window_words(segs_view(segs@), lo as int, hi as int),
{
    let ghost sv = segs_view(segs@);
    let mut out: Vec<Vec<char>> = Vec::new();
    let mut k: usize = lo;
    assert(views(out@) =~= seq![]);
    while k < hi
        invariant
            lo <= k <= hi <= segs@.len(),
            sv == segs_view(segs@),
            views(out@) == window_words(sv, lo as int, k as int),
        decreases hi - k,
    {
        assert(sv[k as int] == seg_view(segs@[k as int]));
        let lw = long_lower_words_exec(segs[k].text.as_str());
        add_distinct_exec(&mut out, &lw);
        k += 1;
    }
    out
}

fn shared_count_exec(a: &Vec<Vec<char>>, b: &Vec<Vec<char>>) -> (r: usize)
    ensures
        r == shared_count(views(a@), views(b@)),
        r <= a@.len(),
{
    let ghost av = views(a@);
    let mut n: usize = 0;
    let mut i: usize = 0;
    while i < a.len()
        invariant
            i <= a@.len(),
            av == views(a@),
            n <= i,
            n == shared_count(av.take(i as int), views(b@)),
        decreases a@.len() - i,
    {
        assert(av.take(i + 1).drop_last() =~= av.take(i as int));
        assert(av.take(i + 1).last() == a@[i as int]@);
        if contains_word(b, &a[i]) {
            n += 1;
        }
        i += 1;
    }
    assert(av.take(a@.len() as int) =~= av);
    n
}

/// A candidate boundary as found: its index, the shared words, and the sizes of the two
/// windows' word lists.
pub open spec fn window_view(x: (usize, usize, usize, usize)) -> (nat, nat, nat) {
    (x.0 as nat, x.1 as nat, (x.2 + x.3 - x.1) as nat)
}

pub open spec fn windows_view(s: Seq<(usize, usize, usize, usize)>) -> Seq<(nat, nat, nat)> {
    s.map_values(|x: (usize, usize, usize, usize)| window_view(x))
}

/// `a1 + a2 < b1 + b2`, without overflow.
fn sum_less(a1: u128, a2: u128, b1: u128, b2: u128) -> (r: bool)
    ensures
        r == (a1 + a2 < b1 + b2),
{
    if a1 >= b1 {
        let d = a1 - b1;
        b2 > a2 && d < b2 - a2
    } else {
        let d = b1 - a1;
        a2 <= b2 || a2 - b2 < d
    }
}

/// Whether window `x` changes topic more than window `y`.
fn changes_more_exec(x: (usize, usize, usize, usize), y: (usize, usize, usize, usize)) -> (r: bool)
    requires
        x.1 <= x.2 + x.3,
        y.1 <= y.2 + y.3,
    ensures
        r == changes_more(window_view(x), window_view(y)),
{
    let (xi, xa, xb) = (x.1 as u128, x.2 as u128, x.3 as u128);
    let (yi, ya, yb) = (y.1 as u128, y.2 as u128, y.3 as u128);
    assert(xi * ya <= 0xFFFF_FFFF_FFFF_FFFF * 0xFFFF_FFFF_FFFF_FFFF) by (nonlinear_arith)
        requires
            xi <= 0xFFFF_FFFF_FFFF_FFFF,
            ya <= 0xFFFF_FFFF_FFFF_FFFF,
    ;
    assert(xi * yb <= 0xFFFF_FFFF_FFFF_FFFF * 0xFFFF_FFFF_FFFF_FFFF) by (nonlinear_arith)
        requires
            xi <= 0xFFFF_FFFF_FFFF_FFFF,
            yb <= 0xFFFF_FFFF_FFFF_FFFF,
    ;
    assert(yi * xa <= 0xFFFF_FFFF_FFFF_FFFF * 0xFFFF_FFFF_FFFF_FFFF) by (nonlinear_arith)
        requires
            yi <= 0xFFFF_FFFF_FFFF_FFFF,
            xa <= 0xFFFF_FFFF_FFFF_FFFF,
    ;
    assert(yi * xb <= 0xFFFF_FFFF_FFFF_FFFF * 0xFFFF_FFFF_FFFF_FFFF) by (nonlinear_arith)
        requires
            yi <= 0xFFFF_FFFF_FFFF_FFFF,
            xb <= 0xFFFF_FFFF_FFFF_FFFF,
    ;
    let r = sum_less(xi * ya, xi * yb, yi * xa, yi * xb);
    assert(r == ((xi as int) * ((ya + yb - yi) as int) < (yi as int) * ((xa + xb - xi) as int))) by (nonlinear_arith)
        requires
            r == (xi * ya + xi * yb < yi * xa + yi * xb),
    ;
    r
}

fn boundary_pos_exec(sorted: &Vec<(usize, usize, usize, usize)>, x: (usize, usize, usize, usize)) -> (j: usize)
    requires
        x.1 <= x.2 + x.3,
        forall|k: int| 0 <= k < sorted@.len() ==> (#[trigger] sorted@[k]).1 <= sorted@[k].2 + sorted@[k].3,
    ensures
        j as int == boundary_insert_pos(windows_view(sorted@), window_view(x), 0),
        j <= sorted@.len(),
{
    let ghost sb = windows_view(sorted@);
    let mut j: usize = 0;
    while j < sorted.len()
        invariant
            j <= sorted@.len(),
            sb == windows_view(sorted@),
            x.1 <= x.2 + x.3,
            forall|k: int| 0 <= k < sorted@.len() ==> (#[trigger] sorted@[k]).1 <= sorted@[k].2 + sorted@[k].3,
            boundary_insert_pos(sb, window_view(x), 0) == boundary_insert_pos(sb, window_view(x), j as int),
        decreases sorted@.len() - j,
    {
        if changes_more_exec(x, sorted[j]) {
            return j;
        }
        j += 1;
    }
    j
}

fn nat_pos_exec(out: &Vec<usize>, x: usize) -> (j: usize)
    ensures
        j as int == nat_insert_pos(out@.map_values(|y: usize| y as nat), x as nat, 0),
        j <= out@.len(),
{
    let ghost ob = out@.map_values(|y: usize| y as nat);
    let mut j: usize = 0;
    while j < out.len()
        invariant
            j <= out@.len(),
            ob == out@.map_values(|y: usize| y as nat),
            nat_insert_pos(ob, x as nat, 0) == nat_insert_pos(ob, x as nat, j as int),
        decreases out@.len() - j,
    {
        if x < out[j] {
            return j;
        }
        j += 1;
    }
    j
}

/// Finds where chapters begin: the `target - 1` segment indices where the vocabulary changes
/// most, in increasing order (none for fewer than four segments or one chapter).
pub fn detect_chapter_boundaries(segments: &[TranscriptSegment], target: usize) -> (r: Vec<usize>)
    requires
        target <= usize::MAX / 2,
    ensures
        r@.map_values(|x: usize| x as nat) == boundaries_spec(segs_view(segments@), target as nat),
{
    let ghost sv = segs_view(segments@);
    if segments.len() < 4 || target <= 1 {
        let r: Vec<usize> = Vec::new();
        assert(r@.map_values(|x: usize| x as nat) =~= seq![]);
        return r;
    }
    let w = segments.len() / (target * 2);
    let win: usize = if w > 3 {
        w
    } else {
        3
    };
    let mut scores: Vec<(usize, usize, usize, usize)> = Vec::new();
    let mut i: usize = win;
    assert(windows_view(scores@) =~= seq![]);
    while i < segments.len() && segments.len() - i > win
        invariant
            win >= 3,
            win <= i,
            sv == segs_view(segments@),
            forall|k: int| 0 <= k < scores@.len() ==> (#[trigger] scores@[k]).1 <= scores@[k].2 + scores@[k].3,
            window_scores(sv, win as int, win as int) == windows_view(scores@) + window_scores(
                sv,
                win as int,
                i as int,
            ),
        decreases segments@.len() - i,
    {
        let a = window_words_exec(segments, i - win, i);
        let b = window_words_exec(segments, i, i + win);
        let inter = shared_count_exec(&a, &b);
        let ghost before = windows_view(scores@);
        if a.len() > 0 && b.len() > 0 {
            scores.push((i, inter, a.len(), b.len()));
            assert(windows_view(scores@) =~= before.push((i as nat, inter as nat, (a@.len() + b@.len() - inter) as nat)));
        }
        assert(before + window_scores(sv, win as int, i as int) =~= windows_view(scores@)
            + window_scores(sv, win as int, i + win));
        i = i + win;
    }
    assert(window_scores(sv, win as int, i as int) =~= seq![]);
    assert(windows_view(scores@) + seq![] =~= windows_view(scores@));
    let ghost tv = windows_view(scores@);
    let mut sorted: Vec<(usize, usize, usize, usize)> = Vec::new();
    let mut k: usize = 0;
    assert(windows_view(sorted@) =~= sort_boundaries(tv.take(0)));
    while k < scores.len()
        invariant
            k <= scores@.len(),
            tv == windows_view(scores@),
            forall|q: int| 0 <= q < scores@.len() ==> (#[trigger] scores@[q]).1 <= scores@[q].2 + scores@[q].3,
            forall|q: int| 0 <= q < sorted@.len() ==> (#[trigger] sorted@[q]).1 <= sorted@[q].2 + sorted@[q].3,
            windows_view(sorted@) == sort_boundaries(tv.take(k as int)),
        decreases scores@.len() - k,
    {
        assert(tv.take(k + 1).drop_last() =~= tv.take(k as int));
        assert(tv.take(k + 1).last() == tv[k as int]);
        let x = scores[k];
        let ghost sb = windows_view(sorted@);
        let j = boundary_pos_exec(&sorted, x);
        sorted.insert(j, x);
        assert(windows_view(sorted@) =~= sb.insert(j as int, window_view(x)));
        k += 1;
    }
    assert(tv.take(scores@.len() as int) =~= tv);
    let ghost stv = windows_view(sorted@);
    let m: usize = if sorted.len() < target - 1 {
        sorted.len()
    } else {
        target - 1
    };
    let ghost picked = stv.take(m as int).map_values(|x: (nat, nat, nat)| x.0);
    let mut out: Vec<usize> = Vec::new();
    let mut k: usize = 0;
    assert(out@.map_values(|x: usize| x as nat) =~= sort_nats(picked.take(0)));
    while k < m
        invariant
            k <= m <= sorted@.len(),
            stv == windows_view(sorted@),
            picked == stv.take(m as int).map_values(|x: (nat, nat, nat)| x.0),
            out@.map_values(|x: usize| x as nat) == sort_nats(picked.take(k as int)),
        decreases m - k,
    {
        assert(picked.take(k + 1).drop_last() =~= picked.take(k as int));
        assert(picked.take(k + 1).last() == sorted@[k as int].0 as nat);
        let x = sorted[k].0;
        let ghost ob = out@.map_values(|y: usize| y as nat);
        let j = nat_pos_exec(&out, x);
        out.insert(j, x);
        assert(out@.map_values(|y: usize| y as nat) =~= ob.insert(j as int, x as nat));
        k += 1;
    }
    assert(picked.take(m as int) =~= picked);
    out
}


// ---------------------------------------------------------------------------
// Condensing a long transcript.
// ---------------------------------------------------------------------------

/// The index of the last of the best scores among `lo..hi`.
pub open spec fn best_in(sc: Seq<nat>, lo: int, hi: int) -> int {
    lo + last_max_index(sc.subrange(lo, hi))
}

/// One pick every `step` segments from `i` on (before the last segment): the best-scoring
/// segment of each stretch.
pub open spec fn picks_from(sc: Seq<nat>, step: int, i: int) -> Seq<nat>
    decreases sc.len() + step - i,
{
    if step <= 0 || i < 0 || i + 1 >= sc.len() {
        seq![]
    } else {
        let end = if i + step < sc.len() {
            i + step
        } else {
            sc.len() as int
        };
        seq![best_in(sc, i, end) as nat] + picks_from(sc, step, i + step)
    }
}

/// The sorted list with repeats removed.
pub open spec fn dedup_nats(s: Seq<nat>) -> Seq<nat>
    decreases s.len(),
{
    if s.len() <= 1 {
        s
    } else {
        let d = dedup_nats(s.drop_last());
        if s.last() == s[s.len() - 2] {
            d
        } else {
            d.push(s.last())
        }
    }
}

/// Milliseconds as signed whole seconds, as `{:.0}` prints them (halves to even, "-0" for a
/// small negative).
pub open spec fn signed_secs_text(ms: int) -> Seq<char> {
    if ms < 0 {
        "-"@ + dec(round_secs((-ms) as nat))
    } else {
        dec(round_secs(ms as nat))
    }
}

/// The line that marks skipped transcript.
pub open spec fn gap_line(ms: int) -> Seq<char> {
    "  ... ["@ + signed_secs_text(ms) + "s omitted] ..."@
}

/// The lines for the picked segments `k..`, within the word budget (the first line always
/// fits), with a note where segments were skipped.
pub open spec fn condensed_lines(
    segs: Seq<(nat, nat, Seq<char>)>,
    sel: Seq<nat>,
    max_words: nat,
    k: int,
    prev: Option<nat>,
    acc: nat,
    lines: Seq<Seq<char>>,
) -> Seq<Seq<char>>
    decreases sel.len() - k,
{
    if k < 0 || k >= sel.len() || sel[k] >= segs.len() {
        lines
    } else {
        let idx = sel[k];
        let line = prompt_line(segs[idx as int]);
        let lw = words_seq(line).len();
        if acc + lw > max_words && lines.len() > 0 {
            lines
        } else {
            let l2 = match prev {
                Some(p) => if idx > p + 1 && p < segs.len() {
                    lines.push(gap_line(segs[idx as int].0 - segs[p as int].1))
                } else {
                    lines
                },
                None => lines,
            };
            condensed_lines(segs, sel, max_words, k + 1, Some(idx), acc + lw, l2.push(line))
        }
    }
}

/// How many segments the budget allows at the transcript's average words per segment (at
/// least one word each).
pub open spec fn target_segments(word_count: nat, n: nat, max_words: nat) -> nat {
    if word_count >= n && word_count > 0 {
        max_words * n / word_count
    } else {
        max_words
    }
}

/// The lines of a long transcript's condensed text.
pub open spec fn condensed_line_list(segs: Seq<(nat, nat, Seq<char>)>, max_words: nat) -> Seq<Seq<char>> {
    let full = join_with(prompt_lines(segs), "\n"@);
    let wc = words_seq(full).len();
    let n = segs.len();
    let t = target_segments(wc, n, max_words);
    let step0 = n / (if t > 1 { t } else { 1 });
    let step = if step0 > 1 { step0 } else { 1 };
    let sc = importance_scores(segs);
    let sel = seq![0nat] + picks_from(sc, step as int, step as int) + (if n > 1 {
        seq![(n - 1) as nat]
    } else {
        seq![]
    });
    condensed_lines(segs, dedup_nats(sort_nats(sel)), max_words, 0, None, 0, seq![])
}

/// The transcript as prompt text, condensed to about `max_words` words when longer: the
/// first and last segments and the best-scoring segment of each stretch, in order, with
/// notes where transcript was skipped.
pub open spec fn condensed_spec(segs: Seq<(nat, nat, Seq<char>)>, max_words: nat) -> Seq<char> {
    let full = join_with(prompt_lines(segs), "\n"@);
    let wc = words_seq(full).len();
    if wc <= max_words {
        full
    } else {
        let n = segs.len();
        let t = target_segments(wc, n, max_words);
        let step0 = n / (if t > 1 { t } else { 1 });
        let step = if step0 > 1 { step0 } else { 1 };
        let sc = importance_scores(segs);
        let sel = seq![0nat] + picks_from(sc, step as int, step as int) + (if n > 1 {
            seq![(n - 1) as nat]
        } else {
            seq![]
        });
        join_with(condensed_lines(segs, dedup_nats(sort_nats(sel)), max_words, 0, None, 0, seq![]), "\n"@)
    }
}

/// A transcript whose prompt text has no more than `max_words` words is kept whole: the
/// condensed text is the full prompt text.
pub proof fn lemma_short_transcript_kept_whole(segs: Seq<(nat, nat, Seq<char>)>, max_words: nat)
    requires
        words_seq(join_with(prompt_lines(segs), "\n"@)).len() <= max_words,
    ensures
        condensed_spec(segs, max_words) == join_with(prompt_lines(segs), "\n"@),
{
}

proof fn lemma_nat_insert_pos(s: Seq<nat>, x: nat, j: int)
    requires
        0 <= j <= s.len(),
    ensures
        j <= nat_insert_pos(s, x, j) <= s.len(),
        forall|q: int| j <= q < nat_insert_pos(s, x, j) ==> #[trigger] s[q] <= x,
        nat_insert_pos(s, x, j) < s.len() ==> x < s[nat_insert_pos(s, x, j)],
    decreases s.len() - j,
{
    if j < s.len() && x >= s[j] {
        lemma_nat_insert_pos(s, x, j + 1);
    }
}

proof fn lemma_sort_nats_facts(s: Seq<nat>)
    ensures
        sort_nats(s).len() == s.len(),
        forall|a: int, b: int|
            0 <= a < b < sort_nats(s).len() ==> #[trigger] sort_nats(s)[a] <= #[trigger] sort_nats(s)[b],
        forall|q: int| 0 <= q < s.len() ==> sort_nats(s).contains(#[trigger] s[q]),
        forall|q: int| 0 <= q < s.len() ==> s.contains(#[trigger] sort_nats(s)[q]),
    decreases s.len(),
{
    if s.len() > 0 {
        let d = s.drop_last();
        lemma_sort_nats_facts(d);
        let t0 = sort_nats(d);
        let p0 = nat_insert_pos(t0, s.last(), 0);
        lemma_nat_insert_pos(t0, s.last(), 0);
        let u0 = t0.insert(p0, s.last());
        assert forall|q: int| 0 <= q < s.len() implies s.contains(#[trigger] u0[q]) by {
            if q < p0 {
                assert(u0[q] == t0[q]);
                assert(d.contains(t0[q]));
                let w = choose|w: int| 0 <= w < d.len() && d[w] == t0[q];
                assert(s[w] == d[w]);
            } else if q == p0 {
                assert(s[s.len() - 1] == s.last());
            } else {
                assert(u0[q] == t0[q - 1]);
                assert(d.contains(t0[q - 1]));
                let w = choose|w: int| 0 <= w < d.len() && d[w] == t0[q - 1];
                assert(s[w] == d[w]);
            }
        }
        let t = sort_nats(d);
        let x = s.last();
        let p = nat_insert_pos(t, x, 0);
        lemma_nat_insert_pos(t, x, 0);
        let u = t.insert(p, x);
        assert forall|a: int, b: int| 0 <= a < b < u.len() implies #[trigger] u[a] <= #[trigger] u[b] by {
            if b < p {
                assert(u[a] == t[a] && u[b] == t[b]);
            } else if b == p {
                assert(u[a] == t[a]);
            } else if a < p {
                assert(u[a] == t[a] && u[b] == t[b - 1]);
            } else if a == p {
                assert(u[b] == t[b - 1]);
                assert(t[p] <= t[b - 1]);
            } else {
                assert(u[a] == t[a - 1] && u[b] == t[b - 1]);
            }
        }
        assert forall|q: int| 0 <= q < s.len() implies u.contains(#[trigger] s[q]) by {
            if q == s.len() - 1 {
                assert(u[p] == x);
            } else {
                assert(d[q] == s[q]);
                assert(t.contains(d[q]));
                let w = choose|w: int| 0 <= w < t.len() && t[w] == d[q];
                if w < p {
                    assert(u[w] == t[w]);
                } else {
                    assert(u[w + 1] == t[w]);
                }
            }
        }
    }
}

proof fn lemma_dedup_nats_facts(s: Seq<nat>)
    requires
        forall|a: int, b: int| 0 <= a < b < s.len() ==> #[trigger] s[a] <= #[trigger] s[b],
    ensures
        forall|a: int, b: int|
            0 <= a < b < dedup_nats(s).len() ==> #[trigger] dedup_nats(s)[a] < #[trigger] dedup_nats(s)[b],
        s.len() > 0 ==> dedup_nats(s).len() > 0 && dedup_nats(s)[0] == s[0] && dedup_nats(s).last()
            == s.last(),
    decreases s.len(),
{
    if s.len() > 1 {
        let d0 = s.drop_last();
        assert forall|a: int, b: int| 0 <= a < b < d0.len() implies #[trigger] d0[a] <= #[trigger] d0[b] by {
            assert(d0[a] == s[a] && d0[b] == s[b]);
        }
        lemma_dedup_nats_facts(d0);
        let d = dedup_nats(d0);
        if s.last() != s[s.len() - 2] {
            let e = d.push(s.last());
            assert(s[s.len() - 2] <= s.last());
            assert forall|a: int, b: int| 0 <= a < b < e.len() implies #[trigger] e[a] < #[trigger] e[b] by {
                assert(e[a] == d[a]);
                if b < d.len() {
                    assert(e[b] == d[b]);
                } else {
                    if a < d.len() - 1 {
                        assert(d[a] < d[d.len() - 1]);
                    }
                }
            }
        }
    }
}

/// The lines for the kept segments `kept`, in order, `prev` being the kept segment before
/// them: a note before each one that does not directly follow the one before, then its line.
pub open spec fn rendered_lines(segs: Seq<(nat, nat, Seq<char>)>, kept: Seq<nat>, prev: Option<nat>) -> Seq<
    Seq<char>,
>
    decreases kept.len(),
{
    if kept.len() == 0 {
        seq![]
    } else {
        let idx = kept[0];
        let gap: Seq<Seq<char>> = match prev {
            Some(p) => if idx > p + 1 && p < segs.len() {
                seq![gap_line(segs[idx as int].0 - segs[p as int].1)]
            } else {
                seq![]
            },
            None => seq![],
        };
        gap + seq![prompt_line(segs[idx as int])] + rendered_lines(segs, kept.skip(1), Some(idx))
    }
}

/// How many words the prompt lines of the kept segments hold together.
pub open spec fn kept_words(segs: Seq<(nat, nat, Seq<char>)>, kept: Seq<nat>) -> nat
    decreases kept.len(),
{
    if kept.len() == 0 {
        0
    } else {
        words_seq(prompt_line(segs[kept[0] as int])).len() + kept_words(segs, kept.skip(1))
    }
}

/// The lines picked from `sel[k..]` are those of `sel[k..m]`, all of them segments, within
/// the word budget as the walk promises.
pub open spec fn lines_shape(
    segs: Seq<(nat, nat, Seq<char>)>,
    sel: Seq<nat>,
    max_words: nat,
    k: int,
    prev: Option<nat>,
    acc: nat,
    lines: Seq<Seq<char>>,
    m: int,
) -> bool {
    &&& k <= m <= sel.len()
    &&& condensed_lines(segs, sel, max_words, k, prev, acc, lines) == lines + rendered_lines(
        segs,
        sel.subrange(k, m),
        prev,
    )
    &&& forall|j: int| k <= j < m ==> #[trigger] sel[j] < segs.len()
    &&& (lines.len() > 0 && acc > max_words ==> m == k)
    &&& (lines.len() == 0 || acc <= max_words ==> acc + kept_words(segs, sel.subrange(k, m))
        <= max_words || (lines.len() == 0 && m <= k + 1))
    &&& (lines.len() == 0 && k < sel.len() && sel[k] < segs.len() ==> m > k)
}

proof fn lemma_condensed_lines_shape(
    segs: Seq<(nat, nat, Seq<char>)>,
    sel: Seq<nat>,
    max_words: nat,
    k: int,
    prev: Option<nat>,
    acc: nat,
    lines: Seq<Seq<char>>,
)
    requires
        0 <= k <= sel.len(),
    ensures
        exists|m: int| lines_shape(segs, sel, max_words, k, prev, acc, lines, m),
    decreases sel.len() - k,
{
    let r = condensed_lines(segs, sel, max_words, k, prev, acc, lines);
    if k >= sel.len() || sel[k] >= segs.len() {
        assert(r == lines + rendered_lines(segs, sel.subrange(k, k), prev)) by {
            assert(sel.subrange(k, k) =~= seq![]);
            assert(lines + seq![] =~= lines);
        }
        assert(kept_words(segs, sel.subrange(k, k)) == 0) by {
            assert(sel.subrange(k, k) =~= seq![]);
        }
        assert(lines_shape(segs, sel, max_words, k, prev, acc, lines, k));
    } else {
        let idx = sel[k];
        let line = prompt_line(segs[idx as int]);
        let lw = words_seq(line).len();
        if acc + lw > max_words && lines.len() > 0 {
            assert(r == lines + rendered_lines(segs, sel.subrange(k, k), prev)) by {
                assert(sel.subrange(k, k) =~= seq![]);
                assert(lines + seq![] =~= lines);
            }
            assert(kept_words(segs, sel.subrange(k, k)) == 0) by {
                assert(sel.subrange(k, k) =~= seq![]);
            }
            assert(lines_shape(segs, sel, max_words, k, prev, acc, lines, k));
        } else {
            let gap: Seq<Seq<char>> = match prev {
                Some(p) => if idx > p + 1 && p < segs.len() {
                    seq![gap_line(segs[idx as int].0 - segs[p as int].1)]
                } else {
                    seq![]
                },
                None => seq![],
            };
            let l2 = match prev {
                Some(p) => if idx > p + 1 && p < segs.len() {
                    lines.push(gap_line(segs[idx as int].0 - segs[p as int].1))
                } else {
                    lines
                },
                None => lines,
            };
            assert(l2 == lines + gap);
            let l3 = l2.push(line);
            lemma_condensed_lines_shape(segs, sel, max_words, k + 1, Some(idx), acc + lw, l3);
            let k1 = k + 1;
            let a1: nat = acc + lw;
            let p1 = Some(idx);
            let m = choose|m: int| #[trigger] lines_shape(segs, sel, max_words, k1, p1, a1, l3, m);
            let sub = sel.subrange(k, m);
            assert(sub.skip(1) =~= sel.subrange(k + 1, m));
            assert(sub[0] == idx);
            assert(rendered_lines(segs, sub, prev) == gap + seq![line] + rendered_lines(
                segs,
                sel.subrange(k + 1, m),
                Some(idx),
            ));
            assert(r == lines + rendered_lines(segs, sub, prev)) by {
                assert(l3 == lines + gap + seq![line]);
                assert(lines + (gap + seq![line] + rendered_lines(segs, sel.subrange(k + 1, m), Some(idx)))
                    =~= lines + gap + seq![line] + rendered_lines(segs, sel.subrange(k + 1, m), Some(idx)));
            }
            assert(kept_words(segs, sub) == lw + kept_words(segs, sel.subrange(k + 1, m)));
            assert(forall|j: int| k <= j < m ==> #[trigger] sel[j] < segs.len());
            assert(lines_shape(segs, sel, max_words, k, prev, acc, lines, m));
        }
    }
}

/// When a transcript is condensed, its lines are the prompt lines of some kept segments, in
/// order and each once, starting with the first segment, with one note line before a kept
/// segment exactly when segments were skipped before it; the kept lines hold no more than
/// `max_words` words together, unless only the first one is kept.
pub proof fn lemma_condensed_shape(segs: Seq<(nat, nat, Seq<char>)>, max_words: nat)
    requires
        words_seq(join_with(prompt_lines(segs), "\n"@)).len() > max_words,
    ensures
        exists|kept: Seq<nat>|
            #[trigger] rendered_lines(segs, kept, None) == condensed_line_list(segs, max_words)
                && kept.len() >= 1 && kept[0] == 0 && (forall|a: int, b: int|
                0 <= a < b < kept.len() ==> kept[a] < kept[b]) && (forall|j: int|
                0 <= j < kept.len() ==> #[trigger] kept[j] < segs.len()) && (kept_words(segs, kept)
                <= max_words || kept.len() == 1),
        condensed_spec(segs, max_words) == join_with(condensed_line_list(segs, max_words), "\n"@),
{
    let n = segs.len();
    if n == 0 {
        assert(prompt_lines(segs) =~= seq![]);
        assert(words_seq(seq![]) =~= seq![]) by {
            assert(crate::text::words_from(seq![], 0) =~= seq![]);
        }
    }
    let full = join_with(prompt_lines(segs), "\n"@);
    let wc = words_seq(full).len();
    let t = target_segments(wc, n, max_words);
    let step0 = n / (if t > 1 { t } else { 1 });
    let step = if step0 > 1 { step0 } else { 1 };
    let sc = importance_scores(segs);
    let sel0 = seq![0nat] + picks_from(sc, step as int, step as int) + (if n > 1 {
        seq![(n - 1) as nat]
    } else {
        seq![]
    });
    let sorted = sort_nats(sel0);
    lemma_sort_nats_facts(sel0);
    assert(sel0[0] == 0);
    assert(sorted.contains(0));
    let sel = dedup_nats(sorted);
    lemma_dedup_nats_facts(sorted);
    assert(sorted[0] == 0) by {
        let q = choose|q: int| 0 <= q < sorted.len() && sorted[q] == 0;
        if q > 0 {
            assert(sorted[0] <= sorted[q]);
        }
    }
    let empty: Seq<Seq<char>> = seq![];
    lemma_condensed_lines_shape(segs, sel, max_words, 0, None, 0, empty);
    let z: int = 0;
    let zn: nat = 0;
    let none: Option<nat> = None;
    let m = choose|m: int| #[trigger] lines_shape(segs, sel, max_words, z, none, zn, empty, m);
    let kept = sel.subrange(0, m);
    assert(empty + rendered_lines(segs, kept, None) =~= rendered_lines(segs, kept, None));
    assert(rendered_lines(segs, kept, None) == condensed_line_list(segs, max_words));
    assert(kept.len() >= 1 && kept[0] == 0);
    assert(forall|j: int| 0 <= j < kept.len() ==> #[trigger] kept[j] < segs.len());
    assert(forall|a: int, b: int| 0 <= a < b < kept.len() ==> kept[a] < kept[b]);
}

fn gap_line_exec(ms: i128) -> (r: Vec<char>)
    requires
        -0x1_0000_0000_0000_0000 < ms < 0x1_0000_0000_0000_0000,
    ensures
        r@ == gap_line(ms as int),
{
    let mut out = chars_of("  ... [");
    if ms < 0 {
        push_str(&mut out, "-");
        let m = (-ms) as u128;
        let q = (m / 1000) as u64;
        let r = (m % 1000) as u64;
        let v: u64 = if r > 500 {
            q + 1
        } else if r < 500 {
            q
        } else if q % 2 == 0 {
            q
        } else {
            q + 1
        };
        assert(v as nat == round_secs((-ms) as nat));
        push_all(&mut out, &fmt_u64(v));
    } else {
        let m = ms as u128;
        let q = (m / 1000) as u64;
        let r = (m % 1000) as u64;
        let v: u64 = if r > 500 {
            q + 1
        } else if r < 500 {
            q
        } else if q % 2 == 0 {
            q
        } else {
            q + 1
        };
        assert(v as nat == round_secs(ms as nat));
        push_all(&mut out, &fmt_u64(v));
    }
    push_str(&mut out, "s omitted] ...");
    out
}

fn best_in_exec(sc: &Vec<u64>, lo: usize, hi: usize) -> (r: usize)
    requires
        lo < hi <= sc@.len(),
    ensures
        r as int == best_in(scores_view(sc@), lo as int, hi as int),
        lo <= r < hi,
{
    let sub = {
        let mut v: Vec<u64> = Vec::new();
        let mut k = lo;
        while k < hi
            invariant
                lo <= k <= hi <= sc@.len(),
                v@ == sc@.subrange(lo as int, k as int),
            decreases hi - k,
        {
            v.push(sc[k]);
            assert(v@ =~= sc@.subrange(lo as int, k + 1));
            k += 1;
        }
        v
    };
    assert(scores_view(sub@) =~= scores_view(sc@).subrange(lo as int, hi as int));
    let b = last_max_index_exec(&sub);
    lo + b
}

pub open spec fn nats_view(v: Seq<usize>) -> Seq<nat> {
    v.map_values(|x: usize| x as nat)
}

/// Condenses the transcript to about `max_words` words for a model's prompt, keeping the
/// segments that matter most.
pub fn condense_transcript_to_words(segments: &[TranscriptSegment], max_words: usize) -> (r: String)
    ensures
        r@ == condensed_spec(segs_view(segments@), max_words as nat),
{
    let ghost sv = segs_view(segments@);
    let full = format_segments_to_prompt(segments);
    let fw = words(&chars_of(full.as_str()));
    let wc = fw.len();
    assert(views(fw@).len() == wc);
    if wc <= max_words {
        return full;
    }
    let n = segments.len();
    if n == 0 {
        assert(prompt_lines(sv) =~= seq![]);
        assert(full@ =~= seq![]);
        assert(words_seq(full@) =~= seq![]) by {
            assert(crate::text::words_from(full@, 0) =~= seq![]);
        }
        return full;
    }
    let t: u128 = if wc >= n && wc > 0 {
        assert((max_words as u128) * (n as u128) <= 0xFFFF_FFFF_FFFF_FFFF * 0xFFFF_FFFF_FFFF_FFFF) by (nonlinear_arith)
            requires
                max_words <= 0xFFFF_FFFF_FFFF_FFFF,
                n <= 0xFFFF_FFFF_FFFF_FFFF,
        ;
        (max_words as u128) * (n as u128) / (wc as u128)
    } else {
        max_words as u128
    };
    let tt: u128 = if t > 1 {
        t
    } else {
        1
    };
    let step0: usize = ((n as u128) / tt) as usize;
    let step: usize = if step0 > 1 {
        step0
    } else {
        1
    };
    let sc = importance_scores_exec(segments);
    let ghost scv = scores_view(sc@);
    let mut sel: Vec<usize> = Vec::new();
    sel.push(0);
    let mut i: usize = step;
    assert(nats_view(sel@) =~= seq![0nat]);
    assert(scv.len() == n);
    loop
        invariant_except_break
            seq![0nat] + picks_from(scv, step as int, step as int) == nats_view(sel@) + picks_from(
                scv,
                step as int,
                i as int,
            ),
        invariant
            1 <= step,
            n == segments@.len(),
            scv == scores_view(sc@),
            scv.len() == n,
            step <= i,
            forall|q: int| 0 <= q < sel@.len() ==> (#[trigger] sel@[q]) < n,
        ensures
            seq![0nat] + picks_from(scv, step as int, step as int) == nats_view(sel@),
        decreases n + step - i,
    {
        if i >= n || n - i <= 1 {
            assert(picks_from(scv, step as int, i as int) =~= seq![]);
            assert(nats_view(sel@) + seq![] =~= nats_view(sel@));
            break;
        }
        let end = if n - i > step {
            i + step
        } else {
            n
        };
        let b = best_in_exec(&sc, i, end);
        let ghost before = nats_view(sel@);
        sel.push(b);
        assert(nats_view(sel@) =~= before.push(b as nat));
        assert(before + picks_from(scv, step as int, i as int) =~= nats_view(sel@) + picks_from(
            scv,
            step as int,
            i + step,
        ));
        if n - i <= step {
            assert(picks_from(scv, step as int, i + step) =~= seq![]);
            assert(nats_view(sel@) + seq![] =~= nats_view(sel@));
            break;
        }
        i = i + step;
    }
    let ghost base = nats_view(sel@);
    if n > 1 {
        sel.push(n - 1);
        assert(nats_view(sel@) =~= base + seq![(n - 1) as nat]);
    } else {
        assert(nats_view(sel@) =~= base + seq![]);
    }
    let ghost selv = nats_view(sel@);
    // Sort and drop repeats.
    let mut sorted: Vec<usize> = Vec::new();
    let mut k: usize = 0;
    assert(nats_view(sorted@) =~= sort_nats(selv.take(0)));
    while k < sel.len()
        invariant
            k <= sel@.len(),
            selv == nats_view(sel@),
            forall|q: int| 0 <= q < sel@.len() ==> (#[trigger] sel@[q]) < n,
            forall|q: int| 0 <= q < sorted@.len() ==> (#[trigger] sorted@[q]) < n,
            nats_view(sorted@) == sort_nats(selv.take(k as int)),
        decreases sel@.len() - k,
    {
        assert(selv.take(k + 1).drop_last() =~= selv.take(k as int));
        assert(selv.take(k + 1).last() == sel@[k as int] as nat);
        let x = sel[k];
        let ghost ob = nats_view(sorted@);
        let j = nat_pos_exec(&sorted, x);
        sorted.insert(j, x);
        assert(nats_view(sorted@) =~= ob.insert(j as int, x as nat));
        k += 1;
    }
    assert(selv.take(sel@.len() as int) =~= selv);
    let ghost sortv = nats_view(sorted@);
    let mut selected: Vec<usize> = Vec::new();
    let mut k: usize = 0;
    assert(nats_view(selected@) =~= dedup_nats(sortv.take(0)));
    while k < sorted.len()
        invariant
            k <= sorted@.len(),
            sortv == nats_view(sorted@),
            forall|q: int| 0 <= q < sorted@.len() ==> (#[trigger] sorted@[q]) < n,
            forall|q: int| 0 <= q < selected@.len() ==> (#[trigger] selected@[q]) < n,
            nats_view(selected@) == dedup_nats(sortv.take(k as int)),
        decreases sorted@.len() - k,
    {
        assert(sortv.take(k + 1).drop_last() =~= sortv.take(k as int));
        assert(sortv.take(k + 1).last() == sorted@[k as int] as nat);
        let ghost ob = nats_view(selected@);
        if k == 0 || sorted[k] != sorted[k - 1] {
            selected.push(sorted[k]);
            assert(nats_view(selected@) =~= ob.push(sorted@[k as int] as nat));
            if k == 0 {
                assert(sortv.take(1) =~= seq![sortv[0]]);
                assert(dedup_nats(sortv.take(0)) =~= seq![]);
            }
        }
        k += 1;
    }
    assert(sortv.take(sorted@.len() as int) =~= sortv);
    let ghost fsel = nats_view(selected@);
    // The lines.
    let mut lines: Vec<Vec<char>> = Vec::new();
    assert(views(lines@) =~= seq![]);
    let mut prev: Option<usize> = None;
    let mut acc: u128 = 0;
    let mut k: usize = 0;
    while k < selected.len()
        invariant
            k <= selected@.len(),
            fsel == nats_view(selected@),
            sv == segs_view(segments@),
            n == segments@.len(),
            forall|q: int| 0 <= q < selected@.len() ==> (#[trigger] selected@[q]) < n,
            prev matches Some(p) ==> p < n,
            acc <= k * 0xFFFF_FFFF_FFFF_FFFF,
            condensed_lines(sv, fsel, max_words as nat, 0, None, 0, seq![]) == condensed_lines(
                sv,
                fsel,
                max_words as nat,
                k as int,
                match prev {
                    Some(p) => Some(p as nat),
                    None => None,
                },
                acc as nat,
                views(lines@),
            ),
        ensures
            condensed_lines(sv, fsel, max_words as nat, 0, None, 0, seq![]) == views(lines@),
        decreases selected@.len() - k,
    {
        let idx = selected[k];
        assert(sv[idx as int] == seg_view(segments@[idx as int]));
        let line = prompt_line_exec(&segments[idx]);
        let lws = words(&line);
        let lw = lws.len();
        assert(views(lws@).len() == lw);
        assert(lw <= 0xFFFF_FFFF_FFFF_FFFF);
        if acc + lw as u128 > max_words as u128 && lines.len() > 0 {
            break;
        }
        let ghost before = views(lines@);
        match prev {
            Some(p) => {
                if idx > p + 1 {
                    assert(sv[p as int] == seg_view(segments@[p as int]));
                    let gap: i128 = segments[idx].start_ms as i128 - segments[p].end_ms as i128;
                    let g = gap_line_exec(gap);
                    lines.push(g);
                    assert(views(lines@) =~= before.push(g@));
                }
            },
            None => {},
        }
        let ghost mid = views(lines@);
        lines.push(line);
        assert(views(lines@) =~= mid.push(line@));
        acc = acc + lw as u128;
        prev = Some(idx);
        k += 1;
    }
    string_of(&join(&lines, &chars_of("\n")))
}


/// The transcript condensed to the prompt's word budget of 1400 words.
pub fn condense_transcript(segments: &[TranscriptSegment]) -> (r: String)
    ensures
        r@ == condensed_spec(segs_view(segments@), 1400),
{
    condense_transcript_to_words(segments, 1400)
}

// ---------------------------------------------------------------------------
// Offline analysis: scores and candidate clips.
// ---------------------------------------------------------------------------

/// The audio energy of each segment: the highest loudness peak inside it, none without
/// peaks.
pub open spec fn audio_energies(segs: Seq<(nat, nat, Seq<char>)>, peaks: Option<Seq<AudioPeak>>) -> Seq<nat> {
    segs.map_values(|s: (nat, nat, Seq<char>)| match peaks {
        Some(p) => if s.0 <= u64::MAX && s.1 <= u64::MAX {
            energy_from(p, s.0 as u64, s.1 as u64, 0)
        } else {
            0
        },
        None => 0,
    })
}

/// Text and audio together: 70% of the text score and 30% of the audio energy, at most 10000.
pub open spec fn combine(t: nat, a: nat) -> nat {
    min_nat((7 * t + 3 * a) / 10, 10000)
}

pub open spec fn combined_scores(text: Seq<nat>, audio: Seq<nat>) -> Seq<nat> {
    Seq::new(text.len(), |i: int| combine(text[i], audio[i]))
}

/// Markers that make a segment an anchor for a clip.
pub open spec fn anchor_markers() -> Seq<Seq<char>> {
    seq![
        "point number"@,
        "first point"@,
        "second point"@,
        "finally"@,
        "in conclusion"@,
        "listen to me"@,
        "don't miss this"@,
        "the lord told me"@,
        "by the grace of god"@,
    ]
}

/// Phrases that lead into the next segment.
pub open spec fn lead_in_markers() -> Seq<Seq<char>> {
    seq!["listen to me"@, "look at verse"@, "turn to"@, "open your bibles"@, "point number"@]
}

/// Markers that raise a clip's score.
pub open spec fn clip_markers() -> Seq<Seq<char>> {
    seq!["point number"@, "listen to me"@, "don't miss this"@, "the lord told me"@, "by the grace of god"@]
}

/// How well a clip of `dur` ms ending at segment `j` ends: near a minute (40%), at the end of
/// a sentence (35%), before a pause of at least 0.4 s (25%).
pub open spec fn boundary_score(segs: Seq<(nat, nat, Seq<char>)>, j: int, dur: int) -> nat {
    let off = if dur >= 60000 {
        dur - 60000
    } else {
        60000 - dur
    };
    let sweet = (10000 - min_nat((off / 4) as nat, 10000)) as nat;
    let pause = if j + 1 < segs.len() {
        segs[j + 1].0 - segs[j].1
    } else {
        1000
    };
    sweet * 4 / 10 + (if ends_sentence(segs[j].2) {
        3500nat
    } else {
        0nat
    }) + (if pause >= 400 {
        2500nat
    } else {
        0nat
    })
}

/// Scans the possible last segments `j..` of a clip starting at `st`, keeping the first
/// best-ending one and the last one that keeps the clip between 30 and 90 s.
pub open spec fn scan_end(
    segs: Seq<(nat, nat, Seq<char>)>,
    st: nat,
    j: int,
    best: Option<(nat, nat)>,
    last: Option<nat>,
) -> (Option<(nat, nat)>, Option<nat>)
    decreases segs.len() - j,
{
    if j < 0 || j >= segs.len() {
        (best, last)
    } else {
        let dur = segs[j].1 - st;
        if dur < 30000 {
            scan_end(segs, st, j + 1, best, last)
        } else if dur > 90000 {
            (best, last)
        } else {
            let b = boundary_score(segs, j, dur);
            let best2 = match best {
                Some(x) => if b > x.1 {
                    Some((j as nat, b))
                } else {
                    best
                },
                None => Some((j as nat, b)),
            };
            scan_end(segs, st, j + 1, best2, Some(j as nat))
        }
    }
}

pub open spec fn sum_range(sc: Seq<nat>, lo: int, hi: int) -> nat
    decreases hi - lo,
{
    if hi <= lo {
        0
    } else {
        sum_range(sc, lo, hi - 1) + sc[hi - 1]
    }
}

pub open spec fn max_range(sc: Seq<nat>, lo: int, hi: int) -> nat
    decreases hi - lo,
{
    if hi <= lo {
        0
    } else {
        let m = max_range(sc, lo, hi - 1);
        if sc[hi - 1] > m {
            sc[hi - 1]
        } else {
            m
        }
    }
}

/// Some segment in `lo..hi` cites scripture.
pub open spec fn range_cites(segs: Seq<(nat, nat, Seq<char>)>, lo: int, hi: int) -> bool {
    exists|k: int| lo <= k < hi && scripture_refs_spec(#[trigger] segs[k].2).len() > 0
}

/// Some segment in `lo..hi` holds one of the phrases.
pub open spec fn range_has(segs: Seq<(nat, nat, Seq<char>)>, lo: int, hi: int, ps: Seq<Seq<char>>) -> bool {
    exists|k: int| lo <= k < hi && any_in(lowercase_of(#[trigger] segs[k].2), ps)
}

/// The clip anchored at segment `i`, if any: (first segment, last segment, score). A segment
/// anchors a clip when it scores at least 1800 together, cites scripture or holds a marker;
/// the clip starts one segment earlier after a lead-in, ends where the ending scores best
/// between 30 and 90 s, and scores 7500 plus 12% of its average, 800 for scripture, 600 for
/// a marker and 6% of its loudest audio, kept within 7800 and 9800.
pub open spec fn anchor_clip(
    segs: Seq<(nat, nat, Seq<char>)>,
    combined: Seq<nat>,
    audio: Seq<nat>,
    i: int,
) -> Option<(nat, nat, nat)> {
    let seg = segs[i];
    let has_refs = scripture_refs_spec(seg.2).len() > 0;
    let is_marker = any_in(lowercase_of(seg.2), anchor_markers());
    if combined[i] < 1800 && !has_refs && !is_marker {
        None
    } else {
        let s = if i > 0 && any_in(lowercase_of(segs[i - 1].2), lead_in_markers()) {
            i - 1
        } else {
            i
        };
        let st = segs[s].0;
        let (best, last) = scan_end(segs, st, s, None, None);
        let e_opt: Option<nat> = match best {
            Some(b) => Some(b.0),
            None => last,
        };
        match e_opt {
            None => None,
            Some(e) => if segs[e as int].1 - st < 30000 {
                None
            } else {
                let hi = e as int + 1;
                let n = hi - s;
                let avg = sum_range(combined, s, hi) / n as nat;
                let raw = 7500 + avg * 12 / 100 + (if range_cites(segs, s, hi) {
                    800nat
                } else {
                    0nat
                }) + (if range_has(segs, s, hi, clip_markers()) {
                    600nat
                } else {
                    0nat
                }) + max_range(audio, s, hi) * 6 / 100;
                let comp: nat = if raw < 7800 {
                    7800
                } else if raw > 9800 {
                    9800
                } else {
                    raw
                };
                Some((s as nat, e, comp))
            },
        }
    }
}

/// The clips anchored at the segments `0..k`, in order.
pub open spec fn anchor_clips(
    segs: Seq<(nat, nat, Seq<char>)>,
    combined: Seq<nat>,
    audio: Seq<nat>,
    k: int,
) -> Seq<(nat, nat, nat)>
    decreases k,
{
    if k <= 0 || k > segs.len() {
        seq![]
    } else {
        let r = anchor_clips(segs, combined, audio, k - 1);
        match anchor_clip(segs, combined, audio, k - 1) {
            Some(c) => r.push(c),
            None => r,
        }
    }
}


pub open spec fn peaks_opt(p: Option<&[AudioPeak]>) -> Option<Seq<AudioPeak>> {
    match p {
        Some(x) => Some(x@),
        None => None,
    }
}

fn audio_energies_exec(segs: &[TranscriptSegment], peaks: Option<&[AudioPeak]>) -> (r: Vec<u64>)
    ensures
        scores_view(r@) == audio_energies(segs_view(segs@), peaks_opt(peaks)),
        r@.len() == segs@.len(),
{
    let mut out: Vec<u64> = Vec::new();
    let mut i: usize = 0;
    while i < segs.len()
        invariant
            i <= segs@.len(),
            out@.len() == i,
            scores_view(out@) == audio_energies(segs_view(segs@), peaks_opt(peaks)).take(i as int),
        decreases segs@.len() - i,
    {
        let e: u64 = match peaks {
            Some(p) => compute_segment_audio_energy(p, segs[i].start_ms, segs[i].end_ms),
            None => 0,
        };
        assert(segs_view(segs@)[i as int] == seg_view(segs@[i as int]));
        let ghost before = scores_view(out@);
        out.push(e);
        assert(scores_view(out@) =~= before.push(e as nat));
        assert(audio_energies(segs_view(segs@), peaks_opt(peaks)).take(i + 1) =~= audio_energies(
            segs_view(segs@),
            peaks_opt(peaks),
        ).take(i as int).push(audio_energies(segs_view(segs@), peaks_opt(peaks))[i as int]));
        i += 1;
    }
    assert(audio_energies(segs_view(segs@), peaks_opt(peaks)).take(segs@.len() as int)
        =~= audio_energies(segs_view(segs@), peaks_opt(peaks)));
    out
}

fn combined_exec(text: &Vec<u64>, audio: &Vec<u64>) -> (r: Vec<u64>)
    requires
        text@.len() == audio@.len(),
        forall|k: int| 0 <= k < text@.len() ==> text@[k] <= 10000,
    ensures
        scores_view(r@) == combined_scores(scores_view(text@), scores_view(audio@)),
        r@.len() == text@.len(),
        forall|k: int| 0 <= k < r@.len() ==> r@[k] <= 10000,
{
    let mut out: Vec<u64> = Vec::new();
    let mut i: usize = 0;
    while i < text.len()
        invariant
            i <= text@.len(),
            text@.len() == audio@.len(),
            out@.len() == i,
            forall|k: int| 0 <= k < out@.len() ==> out@[k] <= 10000,
            forall|k: int| 0 <= k < i ==> (#[trigger] out@[k]) as nat == combine(
                text@[k] as nat,
                audio@[k] as nat,
            ),
        decreases text@.len() - i,
    {
        let a: u128 = audio[i] as u128;
        let v: u128 = (7 * (text[i] as u128) + 3 * a) / 10;
        let c: u64 = if v > 10000 {
            10000
        } else {
            v as u64
        };
        out.push(c);
        i += 1;
    }
    assert(scores_view(out@) =~= combined_scores(scores_view(text@), scores_view(audio@)));
    out
}

fn boundary_score_exec(segs: &[TranscriptSegment], j: usize, dur: u64) -> (r: u64)
    requires
        j < segs@.len(),
    ensures
        r as nat == boundary_score(segs_view(segs@), j as int, dur as int),
{
    let ghost sv = segs_view(segs@);
    assert(sv[j as int] == seg_view(segs@[j as int]));
    let off: u64 = if dur >= 60000 {
        dur - 60000
    } else {
        60000 - dur
    };
    let q = off / 4;
    let sweet: u64 = 10000 - if q < 10000 {
        q
    } else {
        10000
    };
    let punct = ends_sentence_exec(segs[j].text.as_str());
    let long_pause: bool = if j + 1 < segs.len() {
        assert(sv[j + 1] == seg_view(segs@[j + 1]));
        segs[j + 1].start_ms >= segs[j].end_ms && segs[j + 1].start_ms - segs[j].end_ms >= 400
    } else {
        true
    };
    sweet * 4 / 10 + (if punct {
        3500
    } else {
        0
    }) + (if long_pause {
        2500
    } else {
        0
    })
}

fn scan_end_exec(segs: &[TranscriptSegment], st: u64, s: usize) -> (r: (Option<(usize, u64)>, Option<usize>))
    requires
        s <= segs@.len(),
    ensures
        (match r.0 {
            Some(b) => Some((b.0 as nat, b.1 as nat)),
            None => None,
        }, match r.1 {
            Some(l) => Some(l as nat),
            None => None,
        }) == scan_end(segs_view(segs@), st as nat, s as int, None, None),
        r.0 matches Some(b) ==> b.0 < segs@.len(),
        r.1 matches Some(l) ==> l < segs@.len(),
{
    let ghost sv = segs_view(segs@);
    let mut best: Option<(usize, u64)> = None;
    let mut last: Option<usize> = None;
    let mut j: usize = s;
    while j < segs.len()
        invariant
            s <= j <= segs@.len(),
            sv == segs_view(segs@),
            best matches Some(b) ==> b.0 < segs@.len(),
            last matches Some(l) ==> l < segs@.len(),
            scan_end(sv, st as nat, s as int, None, None) == scan_end(
                sv,
                st as nat,
                j as int,
                match best {
                    Some(b) => Some((b.0 as nat, b.1 as nat)),
                    None => None,
                },
                match last {
                    Some(l) => Some(l as nat),
                    None => None,
                },
            ),
        ensures
            scan_end(sv, st as nat, s as int, None, None) == (match best {
                Some(b) => Some((b.0 as nat, b.1 as nat)),
                None => None,
            }, match last {
                Some(l) => Some(l as nat),
                None => None,
            }),
            best matches Some(b) ==> b.0 < segs@.len(),
            last matches Some(l) ==> l < segs@.len(),
        decreases segs@.len() - j,
    {
        assert(sv[j as int] == seg_view(segs@[j as int]));
        let end = segs[j].end_ms;
        if end < st || end - st < 30000 {
            j += 1;
        } else if end - st > 90000 {
            break;
        } else {
            let dur = end - st;
            let b = boundary_score_exec(segs, j, dur);
            match best {
                Some(x) => {
                    if b > x.1 {
                        best = Some((j, b));
                    }
                },
                None => {
                    best = Some((j, b));
                },
            }
            last = Some(j);
            j += 1;
        }
    }
    (best, last)
}

#[verifier::rlimit(40)]
fn range_stats_exec(
    segs: &[TranscriptSegment],
    combined: &Vec<u64>,
    audio: &Vec<u64>,
    s: usize,
    e: usize,
) -> (r: (u64, bool, bool, u64))
    requires
        s <= e < segs@.len(),
        combined@.len() == segs@.len(),
        audio@.len() == segs@.len(),
        forall|k: int| 0 <= k < combined@.len() ==> combined@[k] <= 10000,
    ensures
        r.0 as nat == sum_range(scores_view(combined@), s as int, e + 1) / ((e + 1 - s) as nat),
        r.1 == range_cites(segs_view(segs@), s as int, e + 1),
        r.2 == range_has(segs_view(segs@), s as int, e + 1, clip_markers()),
        r.3 as nat == max_range(scores_view(audio@), s as int, e + 1),
{
    let ghost sv = segs_view(segs@);
    let ghost cv = scores_view(combined@);
    let ghost av = scores_view(audio@);
    let mut sum: u128 = 0;
    let mut cites = false;
    let mut marked = false;
    let mut mx: u64 = 0;
    let cm = ["point number", "listen to me", "don't miss this", "the lord told me", "by the grace of god"];
    assert(strs_view(cm@) =~= clip_markers());
    let mut k: usize = s;
    while k <= e
        invariant
            s <= k <= e + 1,
            e < segs@.len(),
            sv == segs_view(segs@),
            cv == scores_view(combined@),
            av == scores_view(audio@),
            combined@.len() == segs@.len(),
            audio@.len() == segs@.len(),
            strs_view(cm@) == clip_markers(),
            forall|q: int| 0 <= q < combined@.len() ==> combined@[q] <= 10000,
            sum == sum_range(cv, s as int, k as int),
            sum <= 10000 * (k - s),
            cites == range_cites(sv, s as int, k as int),
            marked == range_has(sv, s as int, k as int, clip_markers()),
            mx as nat == max_range(av, s as int, k as int),
        decreases e + 1 - k,
    {
        assert(sv[k as int] == seg_view(segs@[k as int]));
        sum = sum + combined[k] as u128;
        let refs = detect_scripture_references(segs[k].text.as_str(), segs[k].start_ms);
        assert(ref_pairs(refs@).len() == refs@.len());
        if refs.len() > 0 {
            cites = true;
        }
        let lower = chars_of(&to_lowercase(segs[k].text.as_str()));
        if contains_any_of(&lower, &cm) {
            marked = true;
        }
        if audio[k] > mx {
            mx = audio[k];
        }
        proof {
            if cites && !range_cites(sv, s as int, k as int) {
                assert(scripture_refs_spec(sv[k as int].2).len() > 0);
            }
            if marked && !range_has(sv, s as int, k as int, clip_markers()) {
                assert(any_in(lowercase_of(sv[k as int].2), clip_markers()));
            }
            if range_cites(sv, s as int, k + 1) && !range_cites(sv, s as int, k as int) {
                let w = choose|w: int| s <= w < k + 1 && scripture_refs_spec(#[trigger] sv[w].2).len() > 0;
                assert(w == k);
            }
            if range_has(sv, s as int, k + 1, clip_markers()) && !range_has(sv, s as int, k as int, clip_markers()) {
                let w = choose|w: int| s <= w < k + 1 && any_in(lowercase_of(#[trigger] sv[w].2), clip_markers());
                assert(w == k);
            }
        }
        k += 1;
    }
    let n = (e + 1 - s) as u128;
    let avg = sum / n;
    assert(avg <= 10000) by (nonlinear_arith)
        requires
            sum <= 10000 * n,
            n > 0,
            avg == sum / n,
    ;
    (avg as u64, cites, marked, mx)
}

fn anchor_clip_exec(segs: &[TranscriptSegment], combined: &Vec<u64>, audio: &Vec<u64>, i: usize) -> (r: Option<(usize, usize, u64)>)
    requires
        i < segs@.len(),
        combined@.len() == segs@.len(),
        audio@.len() == segs@.len(),
        forall|k: int| 0 <= k < combined@.len() ==> combined@[k] <= 10000,
    ensures
        match r {
            Some(c) => anchor_clip(segs_view(segs@), scores_view(combined@), scores_view(audio@), i as int)
                == Some((c.0 as nat, c.1 as nat, c.2 as nat)) && c.0 <= c.1 < segs@.len(),
            None => anchor_clip(segs_view(segs@), scores_view(combined@), scores_view(audio@), i as int) is None,
        },
{
    let ghost sv = segs_view(segs@);
    assert(sv[i as int] == seg_view(segs@[i as int]));
    let refs = detect_scripture_references(segs[i].text.as_str(), segs[i].start_ms);
    assert(ref_pairs(refs@).len() == refs@.len());
    let lower = chars_of(&to_lowercase(segs[i].text.as_str()));
    let am = [
        "point number",
        "first point",
        "second point",
        "finally",
        "in conclusion",
        "listen to me",
        "don't miss this",
        "the lord told me",
        "by the grace of god",
    ];
    assert(strs_view(am@) =~= anchor_markers());
    let is_marker = contains_any_of(&lower, &am);
    if combined[i] < 1800 && refs.len() == 0 && !is_marker {
        return None;
    }
    let li = ["listen to me", "look at verse", "turn to", "open your bibles", "point number"];
    assert(strs_view(li@) =~= lead_in_markers());
    let s: usize = if i > 0 {
        assert(sv[i - 1] == seg_view(segs@[i - 1]));
        let prev_lower = chars_of(&to_lowercase(segs[i - 1].text.as_str()));
        if contains_any_of(&prev_lower, &li) {
            i - 1
        } else {
            i
        }
    } else {
        i
    };
    assert(sv[s as int] == seg_view(segs@[s as int]));
    let st = segs[s].start_ms;
    let (best, last) = scan_end_exec(segs, st, s);
    let e: usize = match best {
        Some(b) => b.0,
        None => match last {
            Some(l) => l,
            None => {
                return None;
            },
        },
    };
    assert(s <= e) by {
        lemma_scan_end_lower(sv, st as nat, s as int, None, None, s as int);
    }
    assert(sv[e as int] == seg_view(segs@[e as int]));
    if segs[e].end_ms < st || segs[e].end_ms - st < 30000 {
        return None;
    }
    let (avg, cites, marked, mx) = range_stats_exec(segs, combined, audio, s, e);
    let raw: u128 = 7500 + (avg as u128) * 12 / 100 + (if cites {
        800
    } else {
        0
    }) + (if marked {
        600
    } else {
        0
    }) + (mx as u128) * 6 / 100;
    let comp: u64 = if raw < 7800 {
        7800
    } else if raw > 9800 {
        9800
    } else {
        raw as u64
    };
    Some((s, e, comp))
}

proof fn lemma_scan_end_lower(
    segs: Seq<(nat, nat, Seq<char>)>,
    st: nat,
    j: int,
    best: Option<(nat, nat)>,
    last: Option<nat>,
    lo: int,
)
    requires
        lo <= j,
        best matches Some(b) ==> b.0 >= lo,
        last matches Some(l) ==> l >= lo,
    ensures
        scan_end(segs, st, j, best, last).0 matches Some(b) ==> b.0 >= lo,
        scan_end(segs, st, j, best, last).1 matches Some(l) ==> l >= lo,
    decreases segs.len() - j,
{
    if 0 <= j < segs.len() {
        let dur = segs[j].1 - st;
        if dur < 30000 {
            lemma_scan_end_lower(segs, st, j + 1, best, last, lo);
        } else if dur <= 90000 {
            let b = boundary_score(segs, j, dur);
            let best2 = match best {
                Some(x) => if b > x.1 {
                    Some((j as nat, b))
                } else {
                    best
                },
                None => Some((j as nat, b)),
            };
            lemma_scan_end_lower(segs, st, j + 1, best2, Some(j as nat), lo);
        }
    }
}

pub open spec fn clips_view(s: Seq<(usize, usize, u64)>) -> Seq<(nat, nat, nat)> {
    s.map_values(|c: (usize, usize, u64)| (c.0 as nat, c.1 as nat, c.2 as nat))
}

fn anchor_clips_exec(segs: &[TranscriptSegment], combined: &Vec<u64>, audio: &Vec<u64>) -> (r: Vec<(usize, usize, u64)>)
    requires
        combined@.len() == segs@.len(),
        audio@.len() == segs@.len(),
        forall|k: int| 0 <= k < combined@.len() ==> combined@[k] <= 10000,
    ensures
        clips_view(r@) == anchor_clips(segs_view(segs@), scores_view(combined@), scores_view(audio@), segs@.len() as int),
        forall|k: int| 0 <= k < r@.len() ==> (#[trigger] r@[k]).0 <= r@[k].1 < segs@.len(),
{
    let mut out: Vec<(usize, usize, u64)> = Vec::new();
    let mut i: usize = 0;
    assert(clips_view(out@) =~= seq![]);
    while i < segs.len()
        invariant
            i <= segs@.len(),
            combined@.len() == segs@.len(),
            audio@.len() == segs@.len(),
            forall|k: int| 0 <= k < combined@.len() ==> combined@[k] <= 10000,
            forall|k: int| 0 <= k < out@.len() ==> (#[trigger] out@[k]).0 <= out@[k].1 < segs@.len(),
            clips_view(out@) == anchor_clips(segs_view(segs@), scores_view(combined@), scores_view(audio@), i as int),
        decreases segs@.len() - i,
    {
        let ghost before = clips_view(out@);
        match anchor_clip_exec(segs, combined, audio, i) {
            Some(c) => {
                out.push(c);
                assert(clips_view(out@) =~= before.push((c.0 as nat, c.1 as nat, c.2 as nat)));
            },
            None => {},
        }
        i += 1;
    }
    out
}


// ---------------------------------------------------------------------------
// Offline analysis: choosing highlights.
// ---------------------------------------------------------------------------


pub open spec fn clip_insert_pos(s: Seq<(nat, nat, nat)>, x: (nat, nat, nat), j: int) -> int
    decreases s.len() - j,
{
    if j < 0 || j >= s.len() {
        s.len() as int
    } else if s[j].2 < x.2 {
        j
    } else {
        clip_insert_pos(s, x, j + 1)
    }
}

/// Stable sort of candidate clips, the best score first.
pub open spec fn sort_clips(s: Seq<(nat, nat, nat)>) -> Seq<(nat, nat, nat)>
    decreases s.len(),
{
    if s.len() == 0 {
        s
    } else {
        let t = sort_clips(s.drop_last());
        t.insert(clip_insert_pos(t, s.last(), 0), s.last())
    }
}

/// A clip from `start` to `end` comes within 35 s of a highlight already chosen.
pub open spec fn too_close(hl: Seq<(u128, Seq<char>, nat, nat, nat, Seq<char>, Seq<char>)>, start: nat, end: nat) -> bool {
    exists|k: int| 0 <= k < hl.len() && (#[trigger] hl[k]).2 - end < 35000 && start - hl[k].3 < 35000
}

/// Chooses highlights from the sorted candidates `k..` until `target` are chosen, skipping
/// those too close to one already chosen; the `m`-th chosen takes `ids[m]`.
pub open spec fn select_clips(
    segs: Seq<(nat, nat, Seq<char>)>,
    combined: Seq<nat>,
    audio: Seq<nat>,
    cands: Seq<(nat, nat, nat)>,
    k: int,
    target: nat,
    ids: Seq<u128>,
    hl: Seq<(u128, Seq<char>, nat, nat, nat, Seq<char>, Seq<char>)>,
) -> Seq<(u128, Seq<char>, nat, nat, nat, Seq<char>, Seq<char>)>
    decreases cands.len() - k,
{
    if k < 0 || k >= cands.len() || hl.len() >= target {
        hl
    } else {
        let (si, ei, sc) = cands[k];
        if ei >= segs.len() || si > ei {
            hl
        } else {
            let start = segs[si as int].0;
            let end = segs[ei as int].1;
            if too_close(hl, start, end) {
                select_clips(segs, combined, audio, cands, k + 1, target, ids, hl)
            } else {
                let hi = ei as int + 1;
                let cs = segs.subrange(si as int, hi);
                let title = clip_title_spec(cs);
                let reason = clip_reason_spec(cs, max_range(audio, si as int, hi));
                let hook = clip_hook_spec(cs, combined.subrange(si as int, hi), title);
                select_clips(
                    segs,
                    combined,
                    audio,
                    cands,
                    k + 1,
                    target,
                    ids,
                    hl.push((ids[hl.len() as int], title, start, end, sc, reason, hook)),
                )
            }
        }
    }
}

/// Evenly spaced one-minute moments (parts `i..=count`) when nothing stood out.
pub open spec fn fallback_clips(
    total: nat,
    count: nat,
    i: nat,
    ids: Seq<u128>,
    hl: Seq<(u128, Seq<char>, nat, nat, nat, Seq<char>, Seq<char>)>,
) -> Seq<(u128, Seq<char>, nat, nat, nat, Seq<char>, Seq<char>)>
    decreases count + 1 - i,
{
    if i > count || i == 0 {
        hl
    } else {
        let s = total * i / (count + 1);
        let e = if s + 60000 < total {
            s + 60000
        } else {
            total
        };
        let hl2 = if e >= s + 30000 {
            hl.push((
                ids[hl.len() as int],
                "Key Moment · Part "@ + dec(i),
                s,
                e as nat,
                8000nat,
                "Evenly-spaced preaching segment with core thematic content."@,
                "Key sermon moment."@,
            ))
        } else {
            hl
        };
        fallback_clips(total, count, i + 1, ids, hl2)
    }
}

pub open spec fn hl_insert_pos(s: Seq<(u128, Seq<char>, nat, nat, nat, Seq<char>, Seq<char>)>, key: nat, j: int) -> int
    decreases s.len() - j,
{
    if j < 0 || j >= s.len() {
        s.len() as int
    } else if key < s[j].2 {
        j
    } else {
        hl_insert_pos(s, key, j + 1)
    }
}

/// Stable sort of highlights by start.
pub open spec fn sort_highlights(s: Seq<(u128, Seq<char>, nat, nat, nat, Seq<char>, Seq<char>)>) -> Seq<(u128, Seq<char>, nat, nat, nat, Seq<char>, Seq<char>)>
    decreases s.len(),
{
    if s.len() == 0 {
        s
    } else {
        let t = sort_highlights(s.drop_last());
        t.insert(hl_insert_pos(t, s.last().2, 0), s.last())
    }
}

/// How many clips a sermon gets: 6 over an hour, 5 over 20 minutes, else 3.
pub open spec fn target_clips(total: nat) -> nat {
    if total > 3600000 {
        6
    } else if total > 1200000 {
        5
    } else {
        3
    }
}

/// The offline highlights of a transcript, the `m`-th chosen taking `ids[m]`, in order of
/// start.
pub open spec fn offline_highlights_spec(
    segs: Seq<(nat, nat, Seq<char>)>,
    peaks: Option<Seq<AudioPeak>>,
    ids: Seq<u128>,
) -> Seq<(u128, Seq<char>, nat, nat, nat, Seq<char>, Seq<char>)> {
    let total = segs.last().1;
    let text = importance_scores(segs);
    let audio = audio_energies(segs, peaks);
    let combined = combined_scores(text, audio);
    let cands = sort_clips(anchor_clips(segs, combined, audio, segs.len() as int));
    let chosen = select_clips(segs, combined, audio, cands, 0, target_clips(total), ids, seq![]);
    let all = if chosen.len() == 0 && total >= 30000 {
        let c = total / 300000 + 1;
        fallback_clips(total, if c < 3 { c } else { 3 }, 1, ids, seq![])
    } else {
        chosen
    };
    sort_highlights(all)
}


fn sort_clips_exec(c: &Vec<(usize, usize, u64)>) -> (r: Vec<(usize, usize, u64)>)
    ensures
        clips_view(r@) == sort_clips(clips_view(c@)),
{
    let ghost cv = clips_view(c@);
    let mut out: Vec<(usize, usize, u64)> = Vec::new();
    let mut k: usize = 0;
    assert(clips_view(out@) =~= sort_clips(cv.take(0)));
    while k < c.len()
        invariant
            k <= c@.len(),
            cv == clips_view(c@),
            clips_view(out@) == sort_clips(cv.take(k as int)),
        decreases c@.len() - k,
    {
        assert(cv.take(k + 1).drop_last() =~= cv.take(k as int));
        assert(cv.take(k + 1).last() == cv[k as int]);
        let x = c[k];
        let ghost ob = clips_view(out@);
        let ghost oo = out@;
        let mut j: usize = 0;
        while j < out.len()
            invariant
                j <= out@.len(),
                k < c@.len(),
                ob == clips_view(out@),
                x == c@[k as int],
                cv == clips_view(c@),
                cv[k as int] == (x.0 as nat, x.1 as nat, x.2 as nat),
                clip_insert_pos(ob, cv[k as int], 0) == clip_insert_pos(ob, cv[k as int], j as int),
            ensures
                clip_insert_pos(ob, cv[k as int], 0) == j as int,
                j <= out@.len(),
            decreases out@.len() - j,
        {
            assert(ob[j as int] == (out@[j as int].0 as nat, out@[j as int].1 as nat, out@[j as int].2 as nat));
            if out[j].2 < x.2 {
                break;
            }
            j += 1;
        }
        out.insert(j, x);
        assert(clips_view(out@) =~= ob.insert(j as int, cv[k as int]));
        k += 1;
    }
    assert(cv.take(c@.len() as int) =~= cv);
    out
}

fn too_close_exec(hl: &Vec<Highlight>, start: u64, end: u64) -> (r: bool)
    ensures
        r == too_close(highlights_view(hl@), start as nat, end as nat),
{
    let ghost hv = highlights_view(hl@);
    let mut k: usize = 0;
    while k < hl.len()
        invariant
            k <= hl@.len(),
            hv == highlights_view(hl@),
            forall|q: int| 0 <= q < k ==> !((#[trigger] hv[q]).2 - end < 35000 && start - hv[q].3 < 35000),
        decreases hl@.len() - k,
    {
        let h = &hl[k];
        assert(hv[k as int] == highlight_view(hl@[k as int]));
        if (h.start_ms as i128) - (end as i128) < 35000 && (start as i128) - (h.end_ms as i128) < 35000 {
            return true;
        }
        k += 1;
    }
    false
}

fn sub_u64(v: &Vec<u64>, lo: usize, hi: usize) -> (r: Vec<u64>)
    requires
        lo <= hi <= v@.len(),
    ensures
        r@ == v@.subrange(lo as int, hi as int),
{
    let mut out: Vec<u64> = Vec::new();
    let mut k = lo;
    while k < hi
        invariant
            lo <= k <= hi <= v@.len(),
            out@ == v@.subrange(lo as int, k as int),
        decreases hi - k,
    {
        out.push(v[k]);
        assert(out@ =~= v@.subrange(lo as int, k + 1));
        k += 1;
    }
    out
}

fn sub_segments(v: &[TranscriptSegment], lo: usize, hi: usize) -> (r: Vec<TranscriptSegment>)
    requires
        lo <= hi <= v@.len(),
    ensures
        r@ == v@.subrange(lo as int, hi as int),
{
    let mut out: Vec<TranscriptSegment> = Vec::new();
    let mut k = lo;
    while k < hi
        invariant
            lo <= k <= hi <= v@.len(),
            out@ == v@.subrange(lo as int, k as int),
        decreases hi - k,
    {
        out.push(v[k].copied());
        assert(out@ =~= v@.subrange(lo as int, k + 1));
        k += 1;
    }
    out
}

fn max_range_exec(v: &Vec<u64>, lo: usize, hi: usize) -> (r: u64)
    requires
        lo <= hi <= v@.len(),
    ensures
        r as nat == max_range(scores_view(v@), lo as int, hi as int),
{
    let mut m: u64 = 0;
    let mut k = lo;
    while k < hi
        invariant
            lo <= k <= hi <= v@.len(),
            m as nat == max_range(scores_view(v@), lo as int, k as int),
        decreases hi - k,
    {
        if v[k] > m {
            m = v[k];
        }
        k += 1;
    }
    m
}

fn select_clips_exec(
    segs: &[TranscriptSegment],
    combined: &Vec<u64>,
    audio: &Vec<u64>,
    cands: &Vec<(usize, usize, u64)>,
    target: usize,
    ids: &Vec<u128>,
) -> (r: Vec<Highlight>)
    requires
        combined@.len() == segs@.len(),
        audio@.len() == segs@.len(),
        ids@.len() >= cands@.len(),
    ensures
        highlights_view(r@) == select_clips(
            segs_view(segs@),
            scores_view(combined@),
            scores_view(audio@),
            clips_view(cands@),
            0,
            target as nat,
            ids@,
            seq![],
        ),
{
    let ghost sv = segs_view(segs@);
    let ghost cv = scores_view(combined@);
    let ghost av = scores_view(audio@);
    let ghost kv = clips_view(cands@);
    let mut hl: Vec<Highlight> = Vec::new();
    let mut k: usize = 0;
    assert(highlights_view(hl@) =~= seq![]);
    while k < cands.len()
        invariant
            k <= cands@.len(),
            hl@.len() <= k,
            ids@.len() >= cands@.len(),
            combined@.len() == segs@.len(),
            audio@.len() == segs@.len(),
            sv == segs_view(segs@),
            cv == scores_view(combined@),
            av == scores_view(audio@),
            kv == clips_view(cands@),
            select_clips(sv, cv, av, kv, 0, target as nat, ids@, seq![]) == select_clips(
                sv,
                cv,
                av,
                kv,
                k as int,
                target as nat,
                ids@,
                highlights_view(hl@),
            ),
        ensures
            select_clips(sv, cv, av, kv, 0, target as nat, ids@, seq![]) == highlights_view(hl@),
        decreases cands@.len() - k,
    {
        if hl.len() >= target {
            break;
        }
        let (si, ei, sc) = cands[k];
        if ei >= segs.len() || si > ei {
            break;
        }
        assert(sv[si as int] == seg_view(segs@[si as int]));
        assert(sv[ei as int] == seg_view(segs@[ei as int]));
        let start = segs[si].start_ms;
        let end = segs[ei].end_ms;
        if too_close_exec(&hl, start, end) {
            k += 1;
            continue;
        }
        let cs = sub_segments(segs, si, ei + 1);
        assert(segs_view(cs@) =~= sv.subrange(si as int, ei + 1));
        let csc = sub_u64(combined, si, ei + 1);
        assert(scores_view(csc@) =~= cv.subrange(si as int, ei + 1));
        let mx = max_range_exec(audio, si, ei + 1);
        let title = derive_clip_title(&cs);
        let reason = derive_clip_reason(&cs, mx);
        let hook = derive_clip_hook(&cs, &csc, title.as_str());
        let ghost before = highlights_view(hl@);
        let h = Highlight {
            id: ids[hl.len()],
            title,
            start_ms: start,
            end_ms: end,
            score_bp: sc,
            reason,
            suggested_hook_text: hook,
        };
        hl.push(h);
        assert(highlights_view(hl@) =~= before.push(highlight_view(h)));
        k += 1;
    }
    hl
}

fn fallback_clips_exec(total: u64, ids: &Vec<u128>) -> (r: Vec<Highlight>)
    requires
        ids@.len() >= 3,
    ensures
        highlights_view(r@) == fallback_clips(
            total as nat,
            if total / 300000 + 1 < 3 { (total / 300000 + 1) as nat } else { 3 },
            1,
            ids@,
            seq![],
        ),
{
    let c = total / 300000 + 1;
    let count: u64 = if c < 3 {
        c
    } else {
        3
    };
    let mut hl: Vec<Highlight> = Vec::new();
    let mut i: u64 = 1;
    assert(highlights_view(hl@) =~= seq![]);
    while i <= count
        invariant
            1 <= i <= count + 1,
            count <= 3,
            hl@.len() < i,
            ids@.len() >= 3,
            fallback_clips(total as nat, count as nat, 1, ids@, seq![]) == fallback_clips(
                total as nat,
                count as nat,
                i as nat,
                ids@,
                highlights_view(hl@),
            ),
        decreases count + 1 - i,
    {
        let ti: u128 = total as u128;
        let ii: u128 = i as u128;
        assert(ti * ii <= 0xFFFF_FFFF_FFFF_FFFF * 3) by (nonlinear_arith)
            requires
                ti <= 0xFFFF_FFFF_FFFF_FFFF,
                ii <= 3,
        ;
        let prod: u128 = ti * ii;
        let d: u128 = (count + 1) as u128;
        let q: u128 = prod / d;
        assert(q <= ti) by (nonlinear_arith)
            requires
                q == prod / d,
                d == ii + (d - ii),
                d > ii,
                prod == ti * ii,
                1 <= ii <= count,
        ;
        let s: u64 = q as u64;
        assert(s as nat == (total as nat) * (i as nat) / ((count + 1) as nat));
        let e: u64 = if (s as u128) + 60000 < total as u128 {
            s + 60000
        } else {
            total
        };
        if (e as u128) >= (s as u128) + 30000 {
            let mut title = chars_of("Key Moment · Part ");
            push_all(&mut title, &fmt_u64(i));
            let ghost before = highlights_view(hl@);
            let h = Highlight {
                id: ids[hl.len()],
                title: string_of(&title),
                start_ms: s,
                end_ms: e,
                score_bp: 8000,
                reason: string_of(&chars_of("Evenly-spaced preaching segment with core thematic content.")),
                suggested_hook_text: string_of(&chars_of("Key sermon moment.")),
            };
            hl.push(h);
            assert(highlights_view(hl@) =~= before.push(highlight_view(h)));
        }
        i += 1;
    }
    hl
}

fn sort_highlights_exec(v: Vec<Highlight>) -> (r: Vec<Highlight>)
    ensures
        highlights_view(r@) == sort_highlights(highlights_view(v@)),
{
    let ghost hv = highlights_view(v@);
    let mut out: Vec<Highlight> = Vec::new();
    let mut rest = v;
    let mut i: usize = 0;
    let ghost n = hv.len();
    assert(rest@.len() == rest.len());
    assert(highlights_view(out@) =~= sort_highlights(hv.take(0)));
    while rest.len() > 0
        invariant
            n == hv.len(),
            n <= usize::MAX,
            i + rest@.len() == n,
            highlights_view(rest@) == hv.skip(i as int),
            highlights_view(out@) == sort_highlights(hv.take(i as int)),
        decreases rest@.len(),
    {
        let ghost old_rest = rest@;
        let x = rest.remove(0);
        proof {
            assert(highlights_view(old_rest)[0] == highlight_view(x));
            assert(highlights_view(rest@) =~= highlights_view(old_rest).skip(1));
            assert(hv.skip(i as int).skip(1) =~= hv.skip(i + 1));
            assert(hv.take(i + 1).drop_last() =~= hv.take(i as int));
            assert(hv.take(i + 1).last() == hv[i as int]);
        }
        let ghost ob = highlights_view(out@);
        let mut j: usize = 0;
        while j < out.len()
            invariant
                j <= out@.len(),
                ob == highlights_view(out@),
                hl_insert_pos(ob, x.start_ms as nat, 0) == hl_insert_pos(ob, x.start_ms as nat, j as int),
            ensures
                hl_insert_pos(ob, x.start_ms as nat, 0) == j as int,
                j <= out@.len(),
            decreases out@.len() - j,
        {
            if x.start_ms < out[j].start_ms {
                break;
            }
            j += 1;
        }
        let ghost xv = highlight_view(x);
        out.insert(j, x);
        assert(highlights_view(out@) =~= ob.insert(j as int, xv));
        i += 1;
    }
    assert(hv.take(n as int) =~= hv);
    out
}

/// The names of a sermon's chapters, in order.
pub open spec fn chapter_name(i: int) -> Seq<char> {
    if i == 0 {
        "Introduction & Opening"@
    } else if i == 1 {
        "Scripture & Context"@
    } else if i == 2 {
        "Core Teaching"@
    } else if i == 3 {
        "Illustration & Application"@
    } else if i == 4 {
        "Altar Call & Exhortation"@
    } else if i == 5 {
        "Testimony & Encouragement"@
    } else if i == 6 {
        "Prayer & Intercession"@
    } else {
        "Closing & Benediction"@
    }
}

fn chapter_name_exec(i: usize) -> (r: &'static str)
    requires
        i < 8,
    ensures
        r@ == chapter_name(i as int),
{
    match i {
        0 => "Introduction & Opening",
        1 => "Scripture & Context",
        2 => "Core Teaching",
        3 => "Illustration & Application",
        4 => "Altar Call & Exhortation",
        5 => "Testimony & Encouragement",
        6 => "Prayer & Intercession",
        _ => "Closing & Benediction",
    }
}



// ---------------------------------------------------------------------------
// Offline analysis: chapters and the whole result.
// ---------------------------------------------------------------------------

/// How many chapters a sermon gets: 8 over an hour, 6 over half an hour, 4 over ten
/// minutes, else 3.
pub open spec fn target_chapters(total: nat) -> nat {
    if total > 3600000 {
        8
    } else if total > 1800000 {
        6
    } else if total > 600000 {
        4
    } else {
        3
    }
}

/// The segment ranges between consecutive boundaries from `k` on, then up to `n`.
pub open spec fn ranges_from(bs: Seq<nat>, n: nat, k: int, prev: nat, acc: Seq<(nat, nat)>) -> Seq<(nat, nat)>
    decreases bs.len() - k,
{
    if k < 0 || k >= bs.len() {
        acc.push((prev, n))
    } else if bs[k] > prev {
        ranges_from(bs, n, k + 1, bs[k], acc.push((prev, bs[k])))
    } else {
        ranges_from(bs, n, k + 1, prev, acc)
    }
}

/// The name of chapter `i`, "Teaching Section" past the eighth.
pub open spec fn name_or_default(i: int) -> Seq<char> {
    if 0 <= i < 8 {
        chapter_name(i)
    } else {
        "Teaching Section"@
    }
}

/// "From [start] to [end]."
pub open spec fn chapter_summary(cs: nat, ce: nat) -> Seq<char> {
    "From "@ + timestamp_spec(cs) + " to "@ + timestamp_spec(ce) + "."@
}

/// The chapters of the ranges `k..` that span time, the `m`-th taking `ids[m]`.
pub open spec fn range_chapters(
    segs: Seq<(nat, nat, Seq<char>)>,
    ranges: Seq<(nat, nat)>,
    k: int,
    ids: Seq<u128>,
    acc: Seq<(u128, Seq<char>, Seq<char>, nat, nat)>,
) -> Seq<(u128, Seq<char>, Seq<char>, nat, nat)>
    decreases ranges.len() - k,
{
    if k < 0 || k >= ranges.len() {
        acc
    } else {
        let (si, ei) = ranges[k];
        if si >= ei || ei > segs.len() {
            range_chapters(segs, ranges, k + 1, ids, acc)
        } else {
            let cs = segs[si as int].0;
            let ce = segs[ei - 1].1;
            if ce <= cs {
                range_chapters(segs, ranges, k + 1, ids, acc)
            } else {
                range_chapters(
                    segs,
                    ranges,
                    k + 1,
                    ids,
                    acc.push((
                        ids[acc.len() as int],
                        chapter_title_spec(segs.subrange(si as int, ei as int), name_or_default(k)),
                        chapter_summary(cs, ce),
                        cs,
                        ce,
                    )),
                )
            }
        }
    }
}

/// Six-minute chapters `i..n` of a sermon of `total` ms, the `m`-th taking `ids[m]`.
pub open spec fn timed_chapters(
    total: nat,
    n: nat,
    i: nat,
    ids: Seq<u128>,
    acc: Seq<(u128, Seq<char>, Seq<char>, nat, nat)>,
) -> Seq<(u128, Seq<char>, Seq<char>, nat, nat)>
    decreases n - i,
{
    if i >= n {
        acc
    } else {
        let cs = i * 360000;
        let ce = if (i + 1) * 360000 < total {
            (i + 1) * 360000
        } else {
            total
        };
        timed_chapters(total, n, i + 1, ids, if ce > cs {
            acc.push((ids[acc.len() as int], name_or_default(i as int), chapter_summary(cs, ce), cs, ce as nat))
        } else {
            acc
        })
    }
}

/// How many six-minute chapters a sermon of `total` ms gets (at least one).
pub open spec fn timed_chapter_count(total: nat) -> nat {
    let n = (total + 359999) / 360000;
    if n > 1 {
        n
    } else {
        1
    }
}

/// The offline chapters: one per range between the places where the topic changes most,
/// else six-minute chapters; those of ranges take `rids`, the timed ones `tids`.
pub open spec fn offline_chapters_spec(segs: Seq<(nat, nat, Seq<char>)>, rids: Seq<u128>, tids: Seq<u128>) -> Seq<(u128, Seq<char>, Seq<char>, nat, nat)> {
    let total = segs.last().1;
    let bs = boundaries_spec(segs, target_chapters(total));
    let chs = range_chapters(segs, ranges_from(bs, segs.len(), 0, 0, seq![]), 0, rids, seq![]);
    if chs.len() > 0 {
        chs
    } else {
        timed_chapters(total, timed_chapter_count(total), 0, tids, seq![])
    }
}

fn chapter_summary_exec(cs: u64, ce: u64) -> (r: String)
    ensures
        r@ == chapter_summary(cs as nat, ce as nat),
{
    let mut out = chars_of("From ");
    push_all(&mut out, &timestamp_chars(cs));
    push_str(&mut out, " to ");
    push_all(&mut out, &timestamp_chars(ce));
    push_str(&mut out, ".");
    string_of(&out)
}

fn name_or_default_exec(i: usize) -> (r: &'static str)
    ensures
        r@ == name_or_default(i as int),
{
    if i < 8 {
        chapter_name_exec(i)
    } else {
        "Teaching Section"
    }
}

pub open spec fn ranges_view(s: Seq<(usize, usize)>) -> Seq<(nat, nat)> {
    s.map_values(|x: (usize, usize)| (x.0 as nat, x.1 as nat))
}

fn ranges_exec(bs: &Vec<usize>, n: usize) -> (r: Vec<(usize, usize)>)
    ensures
        ranges_view(r@) == ranges_from(nats_view(bs@), n as nat, 0, 0, seq![]),
        r@.len() <= bs@.len() + 1,
{
    let ghost bv = nats_view(bs@);
    let mut acc: Vec<(usize, usize)> = Vec::new();
    let mut prev: usize = 0;
    let mut k: usize = 0;
    assert(ranges_view(acc@) =~= seq![]);
    while k < bs.len()
        invariant
            k <= bs@.len(),
            bv == nats_view(bs@),
            acc@.len() <= k,
            ranges_from(bv, n as nat, 0, 0, seq![]) == ranges_from(bv, n as nat, k as int, prev as nat, ranges_view(acc@)),
        decreases bs@.len() - k,
    {
        let ghost before = ranges_view(acc@);
        if bs[k] > prev {
            acc.push((prev, bs[k]));
            assert(ranges_view(acc@) =~= before.push((prev as nat, bs@[k as int] as nat)));
            prev = bs[k];
        }
        k += 1;
    }
    let ghost before = ranges_view(acc@);
    acc.push((prev, n));
    assert(ranges_view(acc@) =~= before.push((prev as nat, n as nat)));
    acc
}

fn range_chapters_exec(segs: &[TranscriptSegment], ranges: &Vec<(usize, usize)>, ids: &Vec<u128>) -> (r: Vec<Chapter>)
    requires
        ids@.len() >= ranges@.len(),
    ensures
        chapters_view(r@) == range_chapters(segs_view(segs@), ranges_view(ranges@), 0, ids@, seq![]),
{
    let ghost sv = segs_view(segs@);
    let ghost rv = ranges_view(ranges@);
    let mut acc: Vec<Chapter> = Vec::new();
    let mut k: usize = 0;
    assert(chapters_view(acc@) =~= seq![]);
    while k < ranges.len()
        invariant
            k <= ranges@.len(),
            ids@.len() >= ranges@.len(),
            acc@.len() <= k,
            sv == segs_view(segs@),
            rv == ranges_view(ranges@),
            range_chapters(sv, rv, 0, ids@, seq![]) == range_chapters(sv, rv, k as int, ids@, chapters_view(acc@)),
        decreases ranges@.len() - k,
    {
        let (si, ei) = ranges[k];
        if si < ei && ei <= segs.len() {
            assert(sv[si as int] == seg_view(segs@[si as int]));
            assert(sv[ei - 1] == seg_view(segs@[ei - 1]));
            let cs = segs[si].start_ms;
            let ce = segs[ei - 1].end_ms;
            if ce > cs {
                let part = sub_segments(segs, si, ei);
                assert(segs_view(part@) =~= sv.subrange(si as int, ei as int));
                let ghost before = chapters_view(acc@);
                let ch = Chapter {
                    id: ids[acc.len()],
                    title: derive_chapter_title(&part, name_or_default_exec(k)),
                    summary: chapter_summary_exec(cs, ce),
                    start_ms: cs,
                    end_ms: ce,
                };
                acc.push(ch);
                assert(chapters_view(acc@) =~= before.push(chapter_view(ch)));
            }
        }
        k += 1;
    }
    acc
}

fn timed_chapters_exec(total: u64, n: u64, ids: &Vec<u128>) -> (r: Vec<Chapter>)
    requires
        ids@.len() >= n,
    ensures
        chapters_view(r@) == timed_chapters(total as nat, n as nat, 0, ids@, seq![]),
{
    let mut acc: Vec<Chapter> = Vec::new();
    let mut i: u64 = 0;
    assert(chapters_view(acc@) =~= seq![]);
    while i < n
        invariant
            i <= n,
            ids@.len() >= n,
            acc@.len() <= i,
            timed_chapters(total as nat, n as nat, 0, ids@, seq![]) == timed_chapters(total as nat, n as nat, i as nat, ids@, chapters_view(acc@)),
        decreases n - i,
    {
        let cs: u128 = (i as u128) * 360000;
        let next: u128 = ((i + 1) as u128) * 360000;
        let ce: u128 = if next < total as u128 {
            next
        } else {
            total as u128
        };
        if ce > cs {
            let ghost before = chapters_view(acc@);
            let ch = Chapter {
                id: ids[acc.len()],
                title: string_of(&chars_of(if i < 8 {
                    chapter_name_exec(i as usize)
                } else {
                    "Teaching Section"
                })),
                summary: chapter_summary_exec(cs as u64, ce as u64),
                start_ms: cs as u64,
                end_ms: ce as u64,
            };
            acc.push(ch);
            assert(chapters_view(acc@) =~= before.push(chapter_view(ch)));
        }
        i += 1;
    }
    acc
}


/// How the highlights of an analysis were found.
#[derive(Debug, Clone, Copy, PartialEq, Eq, Structural)]
pub enum HighlightDetectionStatus {
    Success,
    Heuristic,
    NoCandidatesProposed,
    AllCandidatesFiltered,
    Failed,
}

/// The highlights of an analysis, with what was proposed and turned down.
#[derive(Debug, Clone)]
pub struct HighlightDetectionReport {
    pub highlights: Vec<Highlight>,
    pub total_proposed: usize,
    pub total_passed: usize,
    pub discarded: Vec<DiscardedCandidate>,
    pub status: HighlightDetectionStatus,
    pub error_message: Option<String>,
}

/// The chapters and highlights of a sermon.
#[derive(Debug, Clone)]
pub struct SermonAnalysisResult {
    pub chapters: Vec<Chapter>,
    pub highlights_report: HighlightDetectionReport,
}

proof fn lemma_anchor_clips_len(
    segs: Seq<(nat, nat, Seq<char>)>,
    combined: Seq<nat>,
    audio: Seq<nat>,
    k: int,
)
    ensures
        anchor_clips(segs, combined, audio, k).len() <= if k > 0 { k } else { 0 },
    decreases k,
{
    if 0 < k <= segs.len() {
        lemma_anchor_clips_len(segs, combined, audio, k - 1);
    }
}

proof fn lemma_clip_insert_pos(s: Seq<(nat, nat, nat)>, x: (nat, nat, nat), j: int)
    requires
        0 <= j <= s.len(),
    ensures
        j <= clip_insert_pos(s, x, j) <= s.len(),
    decreases s.len() - j,
{
    if j < s.len() && !(s[j].2 < x.2) {
        lemma_clip_insert_pos(s, x, j + 1);
    }
}

proof fn lemma_sort_clips_len(s: Seq<(nat, nat, nat)>)
    ensures
        sort_clips(s).len() == s.len(),
    decreases s.len(),
{
    if s.len() > 0 {
        lemma_sort_clips_len(s.drop_last());
        lemma_clip_insert_pos(sort_clips(s.drop_last()), s.last(), 0);
    }
}

/// The offline highlights of a transcript, the `m`-th chosen taking `ids[m]`.
pub fn offline_highlights_with_ids(
    segments: &[TranscriptSegment],
    audio_peaks: Option<&[AudioPeak]>,
    ids: &Vec<u128>,
) -> (r: Vec<Highlight>)
    requires
        segments@.len() > 0,
        ids@.len() >= segments@.len(),
        ids@.len() >= 3,
    ensures
        highlights_view(r@) == offline_highlights_spec(segs_view(segments@), peaks_opt(audio_peaks), ids@),
{
    let ghost sv = segs_view(segments@);
    let n = segments.len();
    assert(sv.last() == seg_view(segments@[n - 1]));
    let total = segments[n - 1].end_ms;
    let text = importance_scores_exec(segments);
    let audio = audio_energies_exec(segments, audio_peaks);
    let combined = combined_exec(&text, &audio);
    let cands0 = anchor_clips_exec(segments, &combined, &audio);
    proof {
        lemma_anchor_clips_len(sv, scores_view(combined@), scores_view(audio@), n as int);
    }
    let cands = sort_clips_exec(&cands0);
    proof {
        lemma_sort_clips_len(clips_view(cands0@));
    }
    let target: usize = if total > 3600000 {
        6
    } else if total > 1200000 {
        5
    } else {
        3
    };
    let chosen = select_clips_exec(segments, &combined, &audio, &cands, target, ids);
    let all = if chosen.len() == 0 && total >= 30000 {
        fallback_clips_exec(total, ids)
    } else {
        chosen
    };
    sort_highlights_exec(all)
}

/// Analyzes a sermon transcript offline: highlight clips of 30 to 90 s built around the
/// segments that cite scripture, mark a point, call for attention or declare faith (raised
/// by loud moments of the audio when loudness peaks are given), and chapters where the
/// vocabulary changes most. Identifiers are fresh and random.
pub fn analyze_sermon_offline_heuristics_with_audio(
    segments: &[TranscriptSegment],
    audio_peaks: Option<&[AudioPeak]>,
) -> (r: SermonAnalysisResult)
    ensures
        segments@.len() == 0 ==> r.chapters@.len() == 0 && r.highlights_report.highlights@.len() == 0
            && r.highlights_report.total_proposed == 0 && r.highlights_report.total_passed == 0
            && r.highlights_report.status == HighlightDetectionStatus::NoCandidatesProposed
            && r.highlights_report.error_message is None,
        segments@.len() > 0 ==> (exists|hids: Seq<u128>, rids: Seq<u128>, tids: Seq<u128>|
            highlights_view(r.highlights_report.highlights@) == offline_highlights_spec(
                segs_view(segments@),
                peaks_opt(audio_peaks),
                hids,
            ) && chapters_view(r.chapters@) == offline_chapters_spec(segs_view(segments@), rids, tids))
            && r.highlights_report.total_proposed == r.highlights_report.highlights@.len()
            && r.highlights_report.total_passed == r.highlights_report.highlights@.len()
            && r.highlights_report.status == HighlightDetectionStatus::Heuristic
            && (r.highlights_report.error_message matches Some(m) && m@
            == "Cloud AI unavailable, used keyword detection"@),
        r.highlights_report.discarded@.len() == 0,
{
    if segments.len() == 0 {
        return SermonAnalysisResult {
            chapters: Vec::new(),
            highlights_report: HighlightDetectionReport {
                highlights: Vec::new(),
                total_proposed: 0,
                total_passed: 0,
                discarded: Vec::new(),
                status: HighlightDetectionStatus::NoCandidatesProposed,
                error_message: None,
            },
        };
    }
    let ghost sv = segs_view(segments@);
    let n = segments.len();
    let count: usize = if n > 3 {
        n
    } else {
        3
    };
    let mut hids: Vec<u128> = Vec::new();
    let mut k: usize = 0;
    while k < count
        invariant
            hids@.len() == k,
            k <= count,
        decreases count - k,
    {
        hids.push(new_id());
        k += 1;
    }
    let highlights = offline_highlights_with_ids(segments, audio_peaks, &hids);
    assert(sv.last() == seg_view(segments@[n - 1]));
    let total = segments[n - 1].end_ms;
    let target: usize = if total > 3600000 {
        8
    } else if total > 1800000 {
        6
    } else if total > 600000 {
        4
    } else {
        3
    };
    let bs = detect_chapter_boundaries(segments, target);
    let ranges = ranges_exec(&bs, n);
    let mut rids: Vec<u128> = Vec::new();
    let mut k: usize = 0;
    while k < ranges.len()
        invariant
            rids@.len() == k,
            k <= ranges@.len(),
        decreases ranges@.len() - k,
    {
        rids.push(new_id());
        k += 1;
    }
    let chs = range_chapters_exec(segments, &ranges, &rids);
    proof {
        assert(nats_view(bs@) =~= bs@.map_values(|x: usize| x as nat));
        assert(target as nat == target_chapters(total as nat));
    }
    let ghost tids_used: Seq<u128> = seq![];
    let chapters: Vec<Chapter>;
    if chs.len() > 0 {
        chapters = chs;
        assert(chapters_view(chapters@) == offline_chapters_spec(sv, rids@, tids_used));
    } else {
        let m0 = total / 360000 + if total % 360000 > 0 { 1 } else { 0 };
        let m: u64 = if m0 > 1 {
            m0
        } else {
            1
        };
        assert(m as nat == timed_chapter_count(total as nat));
        let mut tids: Vec<u128> = Vec::new();
        let mut q: u64 = 0;
        while q < m
            invariant
                tids@.len() == q,
                q <= m,
            decreases m - q,
        {
            tids.push(new_id());
            q += 1;
        }
        proof {
            tids_used = tids@;
        }
        chapters = timed_chapters_exec(total, m, &tids);
        assert(chapters_view(chapters@) == offline_chapters_spec(sv, rids@, tids_used));
    }
    assert(highlights_view(highlights@) == offline_highlights_spec(sv, peaks_opt(audio_peaks), hids@));
    let tp = highlights.len();
    SermonAnalysisResult {
        chapters,
        highlights_report: HighlightDetectionReport {
            highlights,
            total_proposed: tp,
            total_passed: tp,
            discarded: Vec::new(),
            status: HighlightDetectionStatus::Heuristic,
            error_message: Some(string_of(&chars_of("Cloud AI unavailable, used keyword detection"))),
        },
    }
}

/// Analyzes a sermon transcript offline, without audio.
pub fn analyze_sermon_offline_heuristics(segments: &[TranscriptSegment]) -> (r: SermonAnalysisResult)
    ensures
        segments@.len() == 0 ==> r.chapters@.len() == 0 && r.highlights_report.highlights@.len() == 0
            && r.highlights_report.status == HighlightDetectionStatus::NoCandidatesProposed,
        segments@.len() > 0 ==> (exists|hids: Seq<u128>, rids: Seq<u128>, tids: Seq<u128>|
            highlights_view(r.highlights_report.highlights@) == offline_highlights_spec(
                segs_view(segments@),
                None,
                hids,
            ) && chapters_view(r.chapters@) == offline_chapters_spec(segs_view(segments@), rids, tids))
            && r.highlights_report.status == HighlightDetectionStatus::Heuristic,
{
    analyze_sermon_offline_heuristics_with_audio(segments, None)
}


// ---------------------------------------------------------------------------
// What holds of every offline highlight.
// ---------------------------------------------------------------------------

/// A highlight lasts between 30 and 90 s and scores between 7800 and 9800 basis points.
pub open spec fn well_sized(h: (u128, Seq<char>, nat, nat, nat, Seq<char>, Seq<char>)) -> bool {
    h.2 + 30000 <= h.3 <= h.2 + 90000 && 7800 <= h.4 <= 9800
}

/// A candidate clip spans 30 to 90 s of the transcript and scores between 7800 and 9800.
pub open spec fn good_clip(segs: Seq<(nat, nat, Seq<char>)>, c: (nat, nat, nat)) -> bool {
    &&& c.0 <= c.1 < segs.len()
    &&& segs[c.0 as int].0 + 30000 <= segs[c.1 as int].1 <= segs[c.0 as int].0 + 90000
    &&& 7800 <= c.2 <= 9800
}

proof fn lemma_scan_end_bounds(
    segs: Seq<(nat, nat, Seq<char>)>,
    st: nat,
    j: int,
    best: Option<(nat, nat)>,
    last: Option<nat>,
)
    requires
        0 <= j,
        best matches Some(b) ==> b.0 < segs.len() && st + 30000 <= segs[b.0 as int].1 <= st + 90000,
        last matches Some(l) ==> l < segs.len() && st + 30000 <= segs[l as int].1 <= st + 90000,
    ensures
        scan_end(segs, st, j, best, last).0 matches Some(b) ==> b.0 < segs.len() && st + 30000
            <= segs[b.0 as int].1 <= st + 90000,
        scan_end(segs, st, j, best, last).1 matches Some(l) ==> l < segs.len() && st + 30000
            <= segs[l as int].1 <= st + 90000,
    decreases segs.len() - j,
{
    if j < segs.len() {
        let dur = segs[j].1 - st;
        if dur < 30000 {
            lemma_scan_end_bounds(segs, st, j + 1, best, last);
        } else if dur <= 90000 {
            let b = boundary_score(segs, j, dur);
            let best2 = match best {
                Some(x) => if b > x.1 {
                    Some((j as nat, b))
                } else {
                    best
                },
                None => Some((j as nat, b)),
            };
            lemma_scan_end_bounds(segs, st, j + 1, best2, Some(j as nat));
        }
    }
}

proof fn lemma_anchor_clips_good(
    segs: Seq<(nat, nat, Seq<char>)>,
    combined: Seq<nat>,
    audio: Seq<nat>,
    k: int,
)
    requires
        combined.len() == segs.len(),
    ensures
        forall|q: int|
            0 <= q < anchor_clips(segs, combined, audio, k).len() ==> good_clip(
                segs,
                #[trigger] anchor_clips(segs, combined, audio, k)[q],
            ),
    decreases k,
{
    if 0 < k <= segs.len() {
        lemma_anchor_clips_good(segs, combined, audio, k - 1);
        let r = anchor_clips(segs, combined, audio, k - 1);
        let i = k - 1;
        match anchor_clip(segs, combined, audio, i) {
            Some(c) => {
                let seg = segs[i];
                let s = if i > 0 && any_in(lowercase_of(segs[i - 1].2), lead_in_markers()) {
                    i - 1
                } else {
                    i
                };
                let st = segs[s].0;
                lemma_scan_end_bounds(segs, st, s, None, None);
                lemma_scan_end_lower(segs, st, s, None, None, s);
                let t = r.push(c);
                assert forall|q: int| 0 <= q < t.len() implies good_clip(segs, #[trigger] t[q]) by {
                    if q < r.len() {
                        assert(t[q] == r[q]);
                    }
                }
            },
            None => {},
        }
    }
}

proof fn lemma_sort_clips_good(segs: Seq<(nat, nat, Seq<char>)>, s: Seq<(nat, nat, nat)>)
    requires
        forall|q: int| 0 <= q < s.len() ==> good_clip(segs, #[trigger] s[q]),
    ensures
        forall|q: int| 0 <= q < sort_clips(s).len() ==> good_clip(segs, #[trigger] sort_clips(s)[q]),
    decreases s.len(),
{
    if s.len() > 0 {
        let d = s.drop_last();
        assert forall|q: int| 0 <= q < d.len() implies good_clip(segs, #[trigger] d[q]) by {
            assert(d[q] == s[q]);
        }
        lemma_sort_clips_good(segs, d);
        let t = sort_clips(d);
        let p = clip_insert_pos(t, s.last(), 0);
        lemma_clip_insert_pos(t, s.last(), 0);
        let u = t.insert(p, s.last());
        assert forall|q: int| 0 <= q < u.len() implies good_clip(segs, #[trigger] u[q]) by {
            if q < p {
                assert(u[q] == t[q]);
            } else if q == p {
                assert(good_clip(segs, s[s.len() - 1]));
            } else {
                assert(u[q] == t[q - 1]);
            }
        }
    }
}

proof fn lemma_select_well_sized(
    segs: Seq<(nat, nat, Seq<char>)>,
    combined: Seq<nat>,
    audio: Seq<nat>,
    cands: Seq<(nat, nat, nat)>,
    k: int,
    target: nat,
    ids: Seq<u128>,
    hl: Seq<(u128, Seq<char>, nat, nat, nat, Seq<char>, Seq<char>)>,
)
    requires
        forall|q: int| 0 <= q < cands.len() ==> good_clip(segs, #[trigger] cands[q]),
        forall|q: int| 0 <= q < hl.len() ==> well_sized(#[trigger] hl[q]),
    ensures
        forall|q: int|
            0 <= q < select_clips(segs, combined, audio, cands, k, target, ids, hl).len() ==> well_sized(
                #[trigger] select_clips(segs, combined, audio, cands, k, target, ids, hl)[q],
            ),
    decreases cands.len() - k,
{
    if 0 <= k < cands.len() && hl.len() < target {
        let (si, ei, sc) = cands[k];
        if !(ei >= segs.len() || si > ei) {
            let start = segs[si as int].0;
            let end = segs[ei as int].1;
            if too_close(hl, start, end) {
                lemma_select_well_sized(segs, combined, audio, cands, k + 1, target, ids, hl);
                assert(select_clips(segs, combined, audio, cands, k, target, ids, hl) == select_clips(
                    segs, combined, audio, cands, k + 1, target, ids, hl));
            } else {
                let hi = ei as int + 1;
                let cs = segs.subrange(si as int, hi);
                let title = clip_title_spec(cs);
                let reason = clip_reason_spec(cs, max_range(audio, si as int, hi));
                let hook = clip_hook_spec(cs, combined.subrange(si as int, hi), title);
                let h = (ids[hl.len() as int], title, start, end, sc, reason, hook);
                assert(good_clip(segs, cands[k]));
                let hl2 = hl.push(h);
                assert forall|q: int| 0 <= q < hl2.len() implies well_sized(#[trigger] hl2[q]) by {
                    if q < hl.len() {
                        assert(hl2[q] == hl[q]);
                    }
                }
                lemma_select_well_sized(segs, combined, audio, cands, k + 1, target, ids, hl2);
                assert(select_clips(segs, combined, audio, cands, k, target, ids, hl) == select_clips(
                    segs, combined, audio, cands, k + 1, target, ids, hl2));
            }
        }
    }
}

proof fn lemma_fallback_well_sized(
    total: nat,
    count: nat,
    i: nat,
    ids: Seq<u128>,
    hl: Seq<(u128, Seq<char>, nat, nat, nat, Seq<char>, Seq<char>)>,
)
    requires
        forall|q: int| 0 <= q < hl.len() ==> well_sized(#[trigger] hl[q]),
    ensures
        forall|q: int|
            0 <= q < fallback_clips(total, count, i, ids, hl).len() ==> well_sized(
                #[trigger] fallback_clips(total, count, i, ids, hl)[q],
            ),
    decreases count + 1 - i,
{
    if !(i > count || i == 0) {
        let s = total * i / (count + 1);
        let e = if s + 60000 < total {
            s + 60000
        } else {
            total
        };
        let hl2 = if e >= s + 30000 {
            hl.push((
                ids[hl.len() as int],
                "Key Moment · Part "@ + dec(i),
                s,
                e as nat,
                8000nat,
                "Evenly-spaced preaching segment with core thematic content."@,
                "Key sermon moment."@,
            ))
        } else {
            hl
        };
        assert forall|q: int| 0 <= q < hl2.len() implies well_sized(#[trigger] hl2[q]) by {
            if q < hl.len() {
                assert(hl2[q] == hl[q]);
            }
        }
        lemma_fallback_well_sized(total, count, i + 1, ids, hl2);
        assert(fallback_clips(total, count, i, ids, hl) == fallback_clips(total, count, i + 1, ids, hl2));
    }
}

proof fn lemma_hl_insert_pos(s: Seq<(u128, Seq<char>, nat, nat, nat, Seq<char>, Seq<char>)>, key: nat, j: int)
    requires
        0 <= j <= s.len(),
    ensures
        j <= hl_insert_pos(s, key, j) <= s.len(),
        forall|m: int| j <= m < hl_insert_pos(s, key, j) ==> (#[trigger] s[m]).2 <= key,
        hl_insert_pos(s, key, j) < s.len() ==> key < s[hl_insert_pos(s, key, j)].2,
    decreases s.len() - j,
{
    if j < s.len() && !(key < s[j].2) {
        lemma_hl_insert_pos(s, key, j + 1);
    }
}

proof fn lemma_sort_highlights(s: Seq<(u128, Seq<char>, nat, nat, nat, Seq<char>, Seq<char>)>)
    requires
        forall|q: int| 0 <= q < s.len() ==> well_sized(#[trigger] s[q]),
    ensures
        forall|q: int| 0 <= q < sort_highlights(s).len() ==> well_sized(#[trigger] sort_highlights(s)[q]),
        forall|a: int, b: int|
            0 <= a < b < sort_highlights(s).len() ==> (#[trigger] sort_highlights(s)[a]).2 <= (
            #[trigger] sort_highlights(s)[b]).2,
    decreases s.len(),
{
    if s.len() > 0 {
        let d = s.drop_last();
        assert forall|q: int| 0 <= q < d.len() implies well_sized(#[trigger] d[q]) by {
            assert(d[q] == s[q]);
        }
        lemma_sort_highlights(d);
        let t = sort_highlights(d);
        let x = s.last();
        let p = hl_insert_pos(t, x.2, 0);
        lemma_hl_insert_pos(t, x.2, 0);
        let u = t.insert(p, x);
        assert forall|q: int| 0 <= q < u.len() implies well_sized(#[trigger] u[q]) by {
            if q < p {
                assert(u[q] == t[q]);
            } else if q == p {
                assert(well_sized(s[s.len() - 1]));
            } else {
                assert(u[q] == t[q - 1]);
            }
        }
        assert forall|a: int, b: int| 0 <= a < b < u.len() implies (#[trigger] u[a]).2 <= (
        #[trigger] u[b]).2 by {
            if b < p {
                assert(u[a] == t[a] && u[b] == t[b]);
            } else if b == p {
                assert(u[a] == t[a]);
            } else if a < p {
                assert(u[a] == t[a] && u[b] == t[b - 1]);
            } else if a == p {
                assert(u[b] == t[b - 1]);
                assert(t[p].2 <= t[b - 1].2);
            } else {
                assert(u[a] == t[a - 1] && u[b] == t[b - 1]);
            }
        }
    }
}

/// Every highlight of the offline analysis lasts between 30 and 90 seconds and scores
/// between 7800 and 9800 basis points, and the highlights come in order of their start.
pub proof fn lemma_offline_highlights_well_sized(
    segs: Seq<(nat, nat, Seq<char>)>,
    peaks: Option<Seq<AudioPeak>>,
    ids: Seq<u128>,
)
    requires
        segs.len() > 0,
    ensures
        forall|q: int|
            0 <= q < offline_highlights_spec(segs, peaks, ids).len() ==> well_sized(
                #[trigger] offline_highlights_spec(segs, peaks, ids)[q],
            ),
        forall|a: int, b: int|
            0 <= a < b < offline_highlights_spec(segs, peaks, ids).len() ==> (
            #[trigger] offline_highlights_spec(segs, peaks, ids)[a]).2 <= (
            #[trigger] offline_highlights_spec(segs, peaks, ids)[b]).2,
{
    let total = segs.last().1;
    let text = importance_scores(segs);
    let audio = audio_energies(segs, peaks);
    let combined = combined_scores(text, audio);
    let raw = anchor_clips(segs, combined, audio, segs.len() as int);
    lemma_anchor_clips_good(segs, combined, audio, segs.len() as int);
    lemma_sort_clips_good(segs, raw);
    let cands = sort_clips(raw);
    let empty: Seq<(u128, Seq<char>, nat, nat, nat, Seq<char>, Seq<char>)> = seq![];
    lemma_select_well_sized(segs, combined, audio, cands, 0, target_clips(total), ids, empty);
    let c = total / 300000 + 1;
    lemma_fallback_well_sized(total, if c < 3 { c } else { 3 }, 1, ids, empty);
    let chosen = select_clips(segs, combined, audio, cands, 0, target_clips(total), ids, empty);
    let all = if chosen.len() == 0 && total >= 30000 {
        fallback_clips(total, if c < 3 { c } else { 3 }, 1, ids, empty)
    } else {
        chosen
    };
    lemma_sort_highlights(all);
}

/// Two highlights lie at least 35 s apart, whichever of them comes first.
pub open spec fn apart(
    a: (u128, Seq<char>, nat, nat, nat, Seq<char>, Seq<char>),
    b: (u128, Seq<char>, nat, nat, nat, Seq<char>, Seq<char>),
) -> bool {
    a.2 >= b.3 + 35000 || b.2 >= a.3 + 35000
}

/// Every two highlights lie at least 35 s apart.
pub open spec fn all_apart(s: Seq<(u128, Seq<char>, nat, nat, nat, Seq<char>, Seq<char>)>) -> bool {
    forall|i: int, j: int| 0 <= i < j < s.len() ==> apart(#[trigger] s[i], #[trigger] s[j])
}

proof fn lemma_select_spaced(
    segs: Seq<(nat, nat, Seq<char>)>,
    combined: Seq<nat>,
    audio: Seq<nat>,
    cands: Seq<(nat, nat, nat)>,
    k: int,
    target: nat,
    ids: Seq<u128>,
    hl: Seq<(u128, Seq<char>, nat, nat, nat, Seq<char>, Seq<char>)>,
)
    requires
        hl.len() <= target,
        all_apart(hl),
    ensures
        select_clips(segs, combined, audio, cands, k, target, ids, hl).len() <= target,
        all_apart(select_clips(segs, combined, audio, cands, k, target, ids, hl)),
    decreases cands.len() - k,
{
    if 0 <= k < cands.len() && hl.len() < target {
        let (si, ei, sc) = cands[k];
        if !(ei >= segs.len() || si > ei) {
            let start = segs[si as int].0;
            let end = segs[ei as int].1;
            if too_close(hl, start, end) {
                lemma_select_spaced(segs, combined, audio, cands, k + 1, target, ids, hl);
            } else {
                let hi = ei as int + 1;
                let cs = segs.subrange(si as int, hi);
                let title = clip_title_spec(cs);
                let reason = clip_reason_spec(cs, max_range(audio, si as int, hi));
                let hook = clip_hook_spec(cs, combined.subrange(si as int, hi), title);
                let h = (ids[hl.len() as int], title, start, end, sc, reason, hook);
                let hl2 = hl.push(h);
                assert forall|i: int, j: int| 0 <= i < j < hl2.len() implies apart(
                    #[trigger] hl2[i],
                    #[trigger] hl2[j],
                ) by {
                    assert(hl2[i] == hl[i]);
                    if j < hl.len() {
                        assert(hl2[j] == hl[j]);
                    } else {
                        assert(hl2[j] == h);
                        if !apart(hl[i], h) {
                            assert(too_close(hl, start, end));
                        }
                    }
                }
                lemma_select_spaced(segs, combined, audio, cands, k + 1, target, ids, hl2);
            }
        }
    }
}

/// Where the `i`-th evenly spaced moment starts.
pub open spec fn fallback_start(total: nat, count: nat, i: nat) -> nat {
    total * i / (count + 1)
}

proof fn lemma_fallback_gap(total: nat, count: nat, i: nat)
    requires
        count == (if total / 300000 + 1 < 3 {
            total / 300000 + 1
        } else {
            3
        }),
        1 <= i < count,
    ensures
        fallback_start(total, count, i) + 95000 <= fallback_start(total, count, i + 1),
{
    if count == 2 {
        assert(total >= 300000);
        assert(total * 1 / 3 + 95000 <= total * 2 / 3);
    } else {
        assert(count == 3 && total >= 600000);
        if i == 1 {
            assert(total * 1 / 4 + 95000 <= total * 2 / 4);
        } else {
            assert(total * 2 / 4 + 95000 <= total * 3 / 4);
        }
    }
}

proof fn lemma_fallback_spaced(
    total: nat,
    count: nat,
    i: nat,
    ids: Seq<u128>,
    hl: Seq<(u128, Seq<char>, nat, nat, nat, Seq<char>, Seq<char>)>,
)
    requires
        count == (if total / 300000 + 1 < 3 {
            total / 300000 + 1
        } else {
            3
        }),
        1 <= i <= count + 1,
        all_apart(hl),
        i <= count ==> forall|q: int|
            0 <= q < hl.len() ==> (#[trigger] hl[q]).3 + 35000 <= fallback_start(total, count, i),
    ensures
        fallback_clips(total, count, i, ids, hl).len() <= hl.len() + (count + 1 - i),
        all_apart(fallback_clips(total, count, i, ids, hl)),
    decreases count + 1 - i,
{
    if i <= count {
        let s = total * i / (count + 1);
        let e = if s + 60000 < total {
            s + 60000
        } else {
            total
        };
        let h = (
            ids[hl.len() as int],
            "Key Moment · Part "@ + dec(i),
            s,
            e as nat,
            8000nat,
            "Evenly-spaced preaching segment with core thematic content."@,
            "Key sermon moment."@,
        );
        let hl2 = if e >= s + 30000 {
            hl.push(h)
        } else {
            hl
        };
        assert forall|i2: int, j: int| 0 <= i2 < j < hl2.len() implies apart(
            #[trigger] hl2[i2],
            #[trigger] hl2[j],
        ) by {
            assert(hl2[i2] == hl[i2]);
            if j < hl.len() {
                assert(hl2[j] == hl[j]);
            } else {
                assert(hl2[j] == h);
                assert(hl[i2].3 + 35000 <= s);
            }
        }
        if i + 1 <= count {
            lemma_fallback_gap(total, count, i);
            assert forall|q: int| 0 <= q < hl2.len() implies (#[trigger] hl2[q]).3 + 35000
                <= fallback_start(total, count, i + 1) by {
                if q < hl.len() {
                    assert(hl2[q] == hl[q]);
                } else {
                    assert(hl2[q] == h);
                }
            }
        }
        lemma_fallback_spaced(total, count, i + 1, ids, hl2);
        assert(fallback_clips(total, count, i, ids, hl) == fallback_clips(total, count, i + 1, ids, hl2));
    }
}

proof fn lemma_sort_highlights_apart(s: Seq<(u128, Seq<char>, nat, nat, nat, Seq<char>, Seq<char>)>)
    requires
        all_apart(s),
    ensures
        sort_highlights(s).len() == s.len(),
        all_apart(sort_highlights(s)),
        forall|q: int| 0 <= q < s.len() ==> s.contains(#[trigger] sort_highlights(s)[q]),
    decreases s.len(),
{
    if s.len() > 0 {
        let d = s.drop_last();
        assert(all_apart(d)) by {
            assert forall|i: int, j: int| 0 <= i < j < d.len() implies apart(
                #[trigger] d[i],
                #[trigger] d[j],
            ) by {
                assert(d[i] == s[i] && d[j] == s[j]);
            }
        }
        lemma_sort_highlights_apart(d);
        let t = sort_highlights(d);
        let x = s.last();
        let n = s.len();
        let p = hl_insert_pos(t, x.2, 0);
        lemma_hl_insert_pos(t, x.2, 0);
        let u = t.insert(p, x);
        assert forall|m: int| 0 <= m < t.len() implies apart(#[trigger] t[m], x) by {
            assert(d.contains(t[m]));
            let k = choose|k: int| 0 <= k < d.len() && d[k] == t[m];
            assert(s[k] == t[m]);
            assert(apart(s[k], s[n - 1]));
        }
        assert forall|i: int, j: int| 0 <= i < j < u.len() implies apart(
            #[trigger] u[i],
            #[trigger] u[j],
        ) by {
            if j < p {
                assert(u[i] == t[i] && u[j] == t[j]);
            } else if j == p {
                assert(u[i] == t[i]);
                assert(apart(t[i], x));
            } else if i < p {
                assert(u[i] == t[i] && u[j] == t[j - 1]);
            } else if i == p {
                assert(u[j] == t[j - 1]);
                assert(apart(t[j - 1], x));
            } else {
                assert(u[i] == t[i - 1] && u[j] == t[j - 1]);
            }
        }
        assert forall|q: int| 0 <= q < s.len() implies s.contains(#[trigger] u[q]) by {
            if q < p {
                assert(u[q] == t[q]);
                assert(d.contains(t[q]));
                let k = choose|k: int| 0 <= k < d.len() && d[k] == t[q];
                assert(s[k] == u[q]);
            } else if q == p {
                assert(s[n - 1] == u[q]);
            } else {
                assert(u[q] == t[q - 1]);
                assert(d.contains(t[q - 1]));
                let k = choose|k: int| 0 <= k < d.len() && d[k] == t[q - 1];
                assert(s[k] == u[q]);
            }
        }
    }
}

/// The offline analysis chooses no more highlights than the sermon's length allows (three,
/// five past 20 minutes, six past an hour), and, taken in order of start, each highlight ends
/// at least 35 s before the next one starts.
pub proof fn lemma_offline_highlights_spaced(
    segs: Seq<(nat, nat, Seq<char>)>,
    peaks: Option<Seq<AudioPeak>>,
    ids: Seq<u128>,
)
    requires
        segs.len() > 0,
    ensures
        offline_highlights_spec(segs, peaks, ids).len() <= target_clips(segs.last().1),
        forall|a: int, b: int|
            0 <= a < b < offline_highlights_spec(segs, peaks, ids).len() ==> (
            #[trigger] offline_highlights_spec(segs, peaks, ids)[a]).3 + 35000 <= (
            #[trigger] offline_highlights_spec(segs, peaks, ids)[b]).2,
{
    let total = segs.last().1;
    let text = importance_scores(segs);
    let audio = audio_energies(segs, peaks);
    let combined = combined_scores(text, audio);
    let cands = sort_clips(anchor_clips(segs, combined, audio, segs.len() as int));
    let empty: Seq<(u128, Seq<char>, nat, nat, nat, Seq<char>, Seq<char>)> = seq![];
    lemma_select_spaced(segs, combined, audio, cands, 0, target_clips(total), ids, empty);
    let c = total / 300000 + 1;
    let count = if c < 3 { c } else { 3 };
    lemma_fallback_spaced(total, count, 1, ids, empty);
    let chosen = select_clips(segs, combined, audio, cands, 0, target_clips(total), ids, empty);
    let all = if chosen.len() == 0 && total >= 30000 {
        fallback_clips(total, count, 1, ids, empty)
    } else {
        chosen
    };
    lemma_sort_highlights_apart(all);
    lemma_offline_highlights_well_sized(segs, peaks, ids);
    let h = offline_highlights_spec(segs, peaks, ids);
    assert(h == sort_highlights(all));
    assert forall|a: int, b: int| 0 <= a < b < h.len() implies (#[trigger] h[a]).3 + 35000 <= (
    #[trigger] h[b]).2 by {
        assert(apart(h[a], h[b]));
        assert(well_sized(h[a]) && well_sized(h[b]));
        assert(h[a].2 <= h[b].2);
    }
}

/// The segments run forward: each starts before it ends, and none starts before an earlier one.
pub open spec fn segs_in_order(segs: Seq<(nat, nat, Seq<char>)>) -> bool {
    &&& forall|k: int| 0 <= k < segs.len() ==> (#[trigger] segs[k]).0 < segs[k].1
    &&& forall|a: int, b: int| 0 <= a < b < segs.len() ==> (#[trigger] segs[a]).0 <= (#[trigger] segs[b]).0
}

/// The ranges split `0..n` into consecutive pieces: the first starts at 0, each ends where
/// the next starts, and the last ends at `n`.
pub open spec fn ranges_partition(r: Seq<(nat, nat)>, n: nat) -> bool {
    &&& r.len() >= 1
    &&& r[0].0 == 0
    &&& forall|k: int| 0 <= k < r.len() - 1 ==> (#[trigger] r[k]).1 == r[k + 1].0
    &&& r.last().1 == n
}

proof fn lemma_ranges_from(bs: Seq<nat>, n: nat, k: int, prev: nat, acc: Seq<(nat, nat)>)
    requires
        0 <= k <= bs.len(),
    ensures
        ranges_from(bs, n, k, prev, acc).len() > acc.len(),
        ranges_from(bs, n, k, prev, acc).subrange(0, acc.len() as int) == acc,
        ranges_from(bs, n, k, prev, acc)[acc.len() as int].0 == prev,
        forall|j: int|
            acc.len() <= j < ranges_from(bs, n, k, prev, acc).len() - 1 ==> (#[trigger] ranges_from(
                bs,
                n,
                k,
                prev,
                acc,
            )[j]).1 == ranges_from(bs, n, k, prev, acc)[j + 1].0,
        ranges_from(bs, n, k, prev, acc).last().1 == n,
        (prev < n && forall|j: int| k <= j < bs.len() ==> #[trigger] bs[j] < n) ==> forall|j: int|
            acc.len() <= j < ranges_from(bs, n, k, prev, acc).len() ==> (#[trigger] ranges_from(
                bs,
                n,
                k,
                prev,
                acc,
            )[j]).0 < ranges_from(bs, n, k, prev, acc)[j].1 <= n,
    decreases bs.len() - k,
{
    let r = ranges_from(bs, n, k, prev, acc);
    if k >= bs.len() {
        assert(r.subrange(0, acc.len() as int) =~= acc);
    } else if bs[k] > prev {
        let a2 = acc.push((prev, bs[k]));
        lemma_ranges_from(bs, n, k + 1, bs[k], a2);
        assert(r.subrange(0, a2.len() as int) == a2);
        assert(r.subrange(0, acc.len() as int) =~= acc) by {
            assert forall|j: int| 0 <= j < acc.len() implies r[j] == acc[j] by {
                assert(r.subrange(0, a2.len() as int)[j] == a2[j]);
            }
        }
        assert(r[acc.len() as int] == (prev, bs[k])) by {
            assert(r.subrange(0, a2.len() as int)[acc.len() as int] == a2[acc.len() as int]);
        }
    } else {
        lemma_ranges_from(bs, n, k + 1, prev, acc);
    }
}

/// Ranges between boundaries split the segments `0..n` into consecutive pieces, the last
/// ending at `n`; with every boundary below `n`, no piece is empty.
pub proof fn lemma_ranges_partition(bs: Seq<nat>, n: nat)
    ensures
        ranges_partition(ranges_from(bs, n, 0, 0, seq![]), n),
        (n > 0 && forall|j: int| 0 <= j < bs.len() ==> #[trigger] bs[j] < n) ==> forall|j: int|
            0 <= j < ranges_from(bs, n, 0, 0, seq![]).len() ==> (#[trigger] ranges_from(bs, n, 0, 0, seq![])[j]).0
                < ranges_from(bs, n, 0, 0, seq![])[j].1 <= n,
{
    lemma_ranges_from(bs, n, 0, 0, seq![]);
}

proof fn lemma_range_chapters_all(
    segs: Seq<(nat, nat, Seq<char>)>,
    ranges: Seq<(nat, nat)>,
    k: int,
    ids: Seq<u128>,
    acc: Seq<(u128, Seq<char>, Seq<char>, nat, nat)>,
)
    requires
        segs_in_order(segs),
        0 <= k <= ranges.len(),
        forall|j: int| k <= j < ranges.len() ==> (#[trigger] ranges[j]).0 < ranges[j].1 <= segs.len(),
    ensures
        range_chapters(segs, ranges, k, ids, acc).len() == acc.len() + ranges.len() - k,
        forall|j: int| 0 <= j < acc.len() ==> #[trigger] range_chapters(segs, ranges, k, ids, acc)[j] == acc[j],
        forall|j: int|
            k <= j < ranges.len() ==> (#[trigger] range_chapters(segs, ranges, k, ids, acc)[acc.len() + j - k]).3
                == segs[ranges[j].0 as int].0 && range_chapters(segs, ranges, k, ids, acc)[acc.len() + j - k].4
                == segs[ranges[j].1 - 1].1,
    decreases ranges.len() - k,
{
    if k < ranges.len() {
        let (si, ei) = ranges[k];
        let cs = segs[si as int].0;
        let ce = segs[ei - 1].1;
        assert(segs[si as int].0 <= segs[ei - 1].0 < ce);
        let c = (
            ids[acc.len() as int],
            chapter_title_spec(segs.subrange(si as int, ei as int), name_or_default(k)),
            chapter_summary(cs, ce),
            cs,
            ce,
        );
        let a2 = acc.push(c);
        lemma_range_chapters_all(segs, ranges, k + 1, ids, a2);
        let r = range_chapters(segs, ranges, k, ids, acc);
        assert(r == range_chapters(segs, ranges, k + 1, ids, a2));
        assert forall|j: int| 0 <= j < acc.len() implies #[trigger] r[j] == acc[j] by {
            assert(r[j] == a2[j]);
        }
        assert forall|j: int| k <= j < ranges.len() implies (#[trigger] r[acc.len() + j - k]).3
            == segs[ranges[j].0 as int].0 && r[acc.len() + j - k].4 == segs[ranges[j].1 - 1].1 by {
            if j == k {
                assert(r[acc.len() as int] == a2[acc.len() as int]);
            } else {
                assert(acc.len() + j - k == a2.len() + j - (k + 1));
            }
        }
    }
}

proof fn lemma_window_positions(segs: Seq<(nat, nat, Seq<char>)>, win: int, i: int)
    ensures
        forall|q: int| 0 <= q < window_scores(segs, win, i).len() ==> (#[trigger] window_scores(segs, win, i)[q]).0
            < segs.len(),
    decreases segs.len() - i,
{
    if !(win <= 0 || i < win || i + win >= segs.len()) {
        lemma_window_positions(segs, win, i + win);
        let a = window_words(segs, i - win, i);
        let b = window_words(segs, i, i + win);
        let inter = shared_count(a, b);
        let h: Seq<(nat, nat, nat)> = if a.len() > 0 && b.len() > 0 {
            seq![(i as nat, inter, (a.len() + b.len() - inter) as nat)]
        } else {
            seq![]
        };
        let t = window_scores(segs, win, i + win);
        let r = window_scores(segs, win, i);
        assert(r == h + t);
        assert forall|q: int| 0 <= q < r.len() implies (#[trigger] r[q]).0 < segs.len() by {
            if q < h.len() {
                assert(r[q] == h[q]);
            } else {
                assert(r[q] == t[q - h.len()]);
            }
        }
    }
}

proof fn lemma_sort_boundaries_from(s: Seq<(nat, nat, nat)>)
    ensures
        sort_boundaries(s).len() == s.len(),
        forall|q: int| 0 <= q < s.len() ==> s.contains(#[trigger] sort_boundaries(s)[q]),
    decreases s.len(),
{
    if s.len() > 0 {
        let d = s.drop_last();
        lemma_sort_boundaries_from(d);
        let t = sort_boundaries(d);
        let p = boundary_insert_pos(t, s.last(), 0);
        lemma_boundary_pos_range(t, s.last(), 0);
        let u = t.insert(p, s.last());
        assert forall|q: int| 0 <= q < s.len() implies s.contains(#[trigger] u[q]) by {
            if q < p {
                assert(u[q] == t[q]);
                assert(d.contains(t[q]));
                let w = choose|w: int| 0 <= w < d.len() && d[w] == t[q];
                assert(s[w] == d[w]);
            } else if q == p {
                assert(s[s.len() - 1] == s.last());
            } else {
                assert(u[q] == t[q - 1]);
                assert(d.contains(t[q - 1]));
                let w = choose|w: int| 0 <= w < d.len() && d[w] == t[q - 1];
                assert(s[w] == d[w]);
            }
        }
    }
}

proof fn lemma_boundary_pos_range(s: Seq<(nat, nat, nat)>, x: (nat, nat, nat), j: int)
    requires
        0 <= j <= s.len(),
    ensures
        j <= boundary_insert_pos(s, x, j) <= s.len(),
    decreases s.len() - j,
{
    if j < s.len() && !changes_more(x, s[j]) {
        lemma_boundary_pos_range(s, x, j + 1);
    }
}

proof fn lemma_boundaries_inside(segs: Seq<(nat, nat, Seq<char>)>, target: nat)
    ensures
        forall|q: int| 0 <= q < boundaries_spec(segs, target).len() ==> #[trigger] boundaries_spec(segs, target)[q]
            < segs.len(),
{
    if !(segs.len() < 4 || target <= 1) {
        let w = segs.len() / (target * 2);
        let win: nat = if w > 3 {
            w
        } else {
            3
        };
        let ws = window_scores(segs, win as int, win as int);
        lemma_window_positions(segs, win as int, win as int);
        let sorted = sort_boundaries(ws);
        lemma_sort_boundaries_from(ws);
        let m: nat = if sorted.len() < target - 1 {
            sorted.len()
        } else {
            (target - 1) as nat
        };
        let picked = sorted.take(m as int).map_values(|x: (nat, nat, nat)| x.0);
        assert forall|q: int| 0 <= q < picked.len() implies #[trigger] picked[q] < segs.len() by {
            assert(ws.contains(sorted[q]));
            let w2 = choose|w2: int| 0 <= w2 < ws.len() && ws[w2] == sorted[q];
        }
        lemma_sort_nats_facts(picked);
        assert forall|q: int| 0 <= q < sort_nats(picked).len() implies #[trigger] sort_nats(picked)[q] < segs.len() by {
            assert(picked.contains(sort_nats(picked)[q]));
        }
    }
}

/// The segment ranges that the offline chapters are cut along.
pub open spec fn offline_ranges(segs: Seq<(nat, nat, Seq<char>)>) -> Seq<(nat, nat)> {
    ranges_from(boundaries_spec(segs, target_chapters(segs.last().1)), segs.len(), 0, 0, seq![])
}

/// The offline chapters of a transcript whose segments run forward cover it: the places where
/// the topic changes split the segments into consecutive ranges, first to last, and there is
/// one chapter per range, running from the start of its first segment to the end of its last.
/// So the first chapter starts with the first segment and the last ends with the last one.
#[verifier::rlimit(50)]
pub proof fn lemma_offline_chapters_cover(segs: Seq<(nat, nat, Seq<char>)>, rids: Seq<u128>, tids: Seq<u128>)
    requires
        segs.len() > 0,
        segs_in_order(segs),
    ensures
        ranges_partition(offline_ranges(segs), segs.len()),
        offline_chapters_spec(segs, rids, tids).len() == offline_ranges(segs).len(),
        forall|k: int|
            0 <= k < offline_ranges(segs).len() ==> (#[trigger] offline_chapters_spec(segs, rids, tids)[k]).3
                == segs[offline_ranges(segs)[k].0 as int].0 && offline_chapters_spec(segs, rids, tids)[k].4
                == segs[offline_ranges(segs)[k].1 - 1].1,
        offline_chapters_spec(segs, rids, tids)[0].3 == segs[0].0,
        offline_chapters_spec(segs, rids, tids).last().4 == segs.last().1,
{
    let total = segs.last().1;
    let bs = boundaries_spec(segs, target_chapters(total));
    let n = segs.len();
    lemma_boundaries_inside(segs, target_chapters(total));
    lemma_ranges_partition(bs, n);
    let rs = ranges_from(bs, n, 0, 0, seq![]);
    assert(rs == offline_ranges(segs));
    let empty: Seq<(u128, Seq<char>, Seq<char>, nat, nat)> = seq![];
    lemma_range_chapters_all(segs, rs, 0, rids, empty);
    let chs = range_chapters(segs, rs, 0, rids, empty);
    assert(chs.len() > 0);
    assert(chs == offline_chapters_spec(segs, rids, tids));
    assert forall|k: int| 0 <= k < rs.len() implies (#[trigger] chs[k]).3 == segs[rs[k].0 as int].0
        && chs[k].4 == segs[rs[k].1 - 1].1 by {
        assert(0 + k - 0 == k);
    }
    assert(chs[0].3 == segs[rs[0].0 as int].0);
    assert(chs[chs.len() - 1] == chs.last());
    assert(rs[rs.len() - 1] == rs.last());
}

} // verus!
