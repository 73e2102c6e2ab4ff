use vstd::prelude::*;
use crate::models::{seg_view, segs_view, TranscriptSegment};
use crate::text::{chars_of, join, join_with, push_all, starts_with, starts_with_seq, string_of, trim, views};
use crate::structuring::nonempty_trimmed;
use crate::whisper::{clean_segment_text, clean_text_spec, hallucination_spec, is_hallucination_or_music};

verus! {

// ---------------------------------------------------------------------------
// The segments of a Deepgram transcription response.
// ---------------------------------------------------------------------------

/// A timed piece of text in a Deepgram response (an utterance, a sentence or a word); times
/// in milliseconds.
#[derive(Debug)]
pub struct TimedText {
    pub start_ms: u64,
    pub end_ms: u64,
    pub text: String,
}

impl TimedText {
    /// A copy of this piece.
    pub fn copied(&self) -> (r: Self)
        ensures
            r == *self,
    {
        TimedText { start_ms: self.start_ms, end_ms: self.end_ms, text: self.text.clone() }
    }
}

/// A paragraph of a Deepgram alternative.
#[derive(Debug)]
pub struct DeepgramParagraph {
    pub sentences: Option<Vec<TimedText>>,
}

/// The paragraphs block of a Deepgram alternative.
#[derive(Debug)]
pub struct DeepgramParagraphs {
    pub paragraphs: Option<Vec<DeepgramParagraph>>,
}

/// One recognition alternative of a channel.
#[derive(Debug)]
pub struct DeepgramAlternative {
    pub transcript: Option<String>,
    pub paragraphs: Option<DeepgramParagraphs>,
    pub words: Option<Vec<TimedText>>,
}

/// One audio channel of the response.
#[derive(Debug)]
pub struct DeepgramChannel {
    pub alternatives: Option<Vec<DeepgramAlternative>>,
}

/// The results block of the response.
#[derive(Debug)]
pub struct DeepgramResults {
    pub channels: Option<Vec<DeepgramChannel>>,
    pub utterances: Option<Vec<TimedText>>,
}

/// A Deepgram transcription response, as far as the segments depend on it.
#[derive(Debug)]
pub struct DeepgramResponse {
    pub results: Option<DeepgramResults>,
}

pub open spec fn tv(t: TimedText) -> (nat, nat, Seq<char>) {
    (t.start_ms as nat, t.end_ms as nat, t.text@)
}

pub open spec fn tvs(s: Seq<TimedText>) -> Seq<(nat, nat, Seq<char>)> {
    s.map_values(|t: TimedText| tv(t))
}

/// The pieces with their text cleaned, keeping those that still hold text and are not
/// music or a recognition artefact.
pub open spec fn keep_clean(ts: Seq<(nat, nat, Seq<char>)>) -> Seq<(nat, nat, Seq<char>)>
    decreases ts.len(),
{
    if ts.len() == 0 {
        seq![]
    } else {
        let r = keep_clean(ts.drop_last());
        let t = ts.last();
        let c = clean_text_spec(t.2);
        if c.len() > 0 && !hallucination_spec(c, None, None, None) {
            r.push((t.0, t.1, c))
        } else {
            r
        }
    }
}

/// The sentences of all paragraphs, in order.
pub open spec fn sentences_of(ps: Seq<DeepgramParagraph>) -> Seq<(nat, nat, Seq<char>)>
    decreases ps.len(),
{
    if ps.len() == 0 {
        seq![]
    } else {
        sentences_of(ps.drop_last()) + match ps.last().sentences {
            Some(s) => tvs(s@),
            None => seq![],
        }
    }
}

/// The words from index `i` on, grouped ten at a time (the last group may be shorter):
/// each group spans from its first word's start to its last word's end, its words joined
/// with spaces.
pub open spec fn word_chunks_from(ws: Seq<(nat, nat, Seq<char>)>, i: int) -> Seq<(nat, nat, Seq<char>)>
    decreases ws.len() - i,
{
    if i < 0 || i >= ws.len() {
        seq![]
    } else {
        let e = if i + 10 < ws.len() {
            i + 10
        } else {
            ws.len() as int
        };
        let g = ws.subrange(i, e);
        seq![(ws[i].0, ws[e - 1].1, join_with(g.map_values(|w: (nat, nat, Seq<char>)| w.2), " "@))]
            + word_chunks_from(ws, e)
    }
}

/// The segments an alternative gives: its paragraph sentences; failing those, its words in
/// groups of ten; failing those, its whole transcript from 0 to `fallback_ms`.
pub open spec fn alternative_segments(alt: DeepgramAlternative, fallback_ms: nat) -> Seq<(nat, nat, Seq<char>)> {
    let s2 = match alt.paragraphs {
        Some(pw) => match pw.paragraphs {
            Some(ps) => keep_clean(sentences_of(ps@)),
            None => seq![],
        },
        None => seq![],
    };
    if s2.len() > 0 {
        s2
    } else {
        let s3 = match alt.words {
            Some(ws) => keep_clean(word_chunks_from(tvs(ws@), 0)),
            None => seq![],
        };
        if s3.len() > 0 {
            s3
        } else {
            match alt.transcript {
                Some(full) => keep_clean(seq![(0nat, fallback_ms, full@)]),
                None => seq![],
            }
        }
    }
}

/// The segments of a Deepgram response: the utterances; failing those, what the first
/// alternative of the first channel gives.
pub open spec fn deepgram_spec(resp: DeepgramResponse, fallback_ms: nat) -> Seq<(nat, nat, Seq<char>)> {
    match resp.results {
        None => seq![],
        Some(res) => {
            let s1 = match res.utterances {
                Some(us) => keep_clean(tvs(us@)),
                None => seq![],
            };
            if s1.len() > 0 {
                s1
            } else {
                match res.channels {
                    Some(chs) => if chs@.len() > 0 {
                        match chs@[0].alternatives {
                            Some(alts) => if alts@.len() > 0 {
                                alternative_segments(alts@[0], fallback_ms)
                            } else {
                                seq![]
                            },
                            None => seq![],
                        }
                    } else {
                        seq![]
                    },
                    None => seq![],
                }
            }
        },
    }
}

fn keep_clean_exec(ts: &[TimedText]) -> (r: Vec<TranscriptSegment>)
    ensures
        segs_view(r@) == keep_clean(tvs(ts@)),
{
    let mut out: Vec<TranscriptSegment> = Vec::new();
    let mut i: usize = 0;
    while i < ts.len()
        invariant
            i <= ts@.len(),
            segs_view(out@) == keep_clean(tvs(ts@.take(i as int))),
        decreases ts@.len() - i,
    {
        assert(tvs(ts@.take(i + 1)).drop_last() =~= tvs(ts@.take(i as int)));
        assert(tvs(ts@.take(i + 1)).last() == tv(ts@[i as int]));
        let clean = clean_segment_text(ts[i].text.as_str());
        if clean.as_str().unicode_len() > 0 && !is_hallucination_or_music(clean.as_str(), None, None, None) {
            let ghost before = segs_view(out@);
            out.push(TranscriptSegment { start_ms: ts[i].start_ms, end_ms: ts[i].end_ms, text: clean });
            assert(segs_view(out@) =~= before.push(seg_view(out@.last())));
        }
        i += 1;
    }
    assert(ts@.take(ts@.len() as int) =~= ts@);
    out
}

fn flatten_sentences(ps: &[DeepgramParagraph]) -> (r: Vec<TimedText>)
    ensures
        tvs(r@) == sentences_of(ps@),
{
    let mut out: Vec<TimedText> = Vec::new();
    let mut i: usize = 0;
    while i < ps.len()
        invariant
            i <= ps@.len(),
            tvs(out@) == sentences_of(ps@.take(i as int)),
        decreases ps@.len() - i,
    {
        assert(ps@.take(i + 1).drop_last() =~= ps@.take(i as int));
        assert(ps@.take(i + 1).last() == ps@[i as int]);
        match &ps[i].sentences {
            Some(ss) => {
                let ghost before = tvs(out@);
                let mut j: usize = 0;
                while j < ss.len()
                    invariant
                        j <= ss@.len(),
                        tvs(out@) == before + tvs(ss@.take(j as int)),
                    decreases ss@.len() - j,
                {
                    let ghost mid = tvs(out@);
                    out.push(ss[j].copied());
                    assert(tvs(out@) =~= mid.push(tv(ss@[j as int])));
                    assert(tvs(ss@.take(j + 1)) =~= tvs(ss@.take(j as int)).push(tv(ss@[j as int])));
                    j += 1;
                }
                assert(ss@.take(ss@.len() as int) =~= ss@);
            },
            None => {
                assert(tvs(out@) =~= tvs(out@) + Seq::<(nat, nat, Seq<char>)>::empty());
            },
        }
        i += 1;
    }
    assert(ps@.take(ps@.len() as int) =~= ps@);
    out
}

fn word_chunks(ws: &[TimedText]) -> (r: Vec<TimedText>)
    ensures
        tvs(r@) == word_chunks_from(tvs(ws@), 0),
{
    let ghost w = tvs(ws@);
    let mut out: Vec<TimedText> = Vec::new();
    let mut i: usize = 0;
    while i < ws.len()
        invariant
            i <= ws@.len(),
            w == tvs(ws@),
            tvs(out@) + word_chunks_from(w, i as int) == word_chunks_from(w, 0),
        decreases ws@.len() - i,
    {
        let e: usize = if ws.len() - i > 10 {
            i + 10
        } else {
            ws.len()
        };
        let mut texts: Vec<Vec<char>> = Vec::new();
        let mut j: usize = i;
        while j < e
            invariant
                i <= j <= e <= ws@.len(),
                w == tvs(ws@),
                views(texts@) == w.subrange(i as int, j as int).map_values(
                    |x: (nat, nat, Seq<char>)| x.2,
                ),
            decreases e - j,
        {
            assert(w[j as int] == tv(ws@[j as int]));
            let ghost old_t = views(texts@);
            texts.push(chars_of(ws[j].text.as_str()));
            assert(views(texts@) =~= old_t.push(w[j as int].2));
            assert(w.subrange(i as int, j + 1).map_values(|x: (nat, nat, Seq<char>)| x.2)
                =~= w.subrange(i as int, j as int).map_values(|x: (nat, nat, Seq<char>)| x.2).push(
                w[j as int].2,
            ));
            j += 1;
        }
        let text = string_of(&join(&texts, &chars_of(" ")));
        let ghost before = tvs(out@);
        out.push(TimedText { start_ms: ws[i].start_ms, end_ms: ws[e - 1].end_ms, text });
        assert(tvs(out@) =~= before.push(tv(out@.last())));
        assert(word_chunks_from(w, i as int) =~= seq![tv(out@.last())] + word_chunks_from(
            w,
            e as int,
        ));
        assert(before + word_chunks_from(w, i as int) =~= tvs(out@) + word_chunks_from(w, e as int));
        i = e;
    }
    assert(tvs(out@) + word_chunks_from(w, i as int) =~= tvs(out@));
    out
}

fn alternative_exec(alt: &DeepgramAlternative, fallback_ms: u64) -> (r: Vec<TranscriptSegment>)
    ensures
        segs_view(r@) == alternative_segments(*alt, fallback_ms as nat),
{
    let s2 = match &alt.paragraphs {
        Some(pw) => match &pw.paragraphs {
            Some(ps) => keep_clean_exec(&flatten_sentences(ps)),
            None => Vec::new(),
        },
        None => Vec::new(),
    };
    if s2.len() > 0 {
        return s2;
    }
    let s3 = match &alt.words {
        Some(ws) => keep_clean_exec(&word_chunks(ws)),
        None => Vec::new(),
    };
    if s3.len() > 0 {
        return s3;
    }
    match &alt.transcript {
        Some(full) => {
            let one = vec![TimedText { start_ms: 0, end_ms: fallback_ms, text: full.clone() }];
            assert(tvs(one@) =~= seq![(0nat, fallback_ms as nat, full@)]);
            keep_clean_exec(&one)
        },
        None => Vec::new(),
    }
}

/// The transcript segments of a Deepgram response; `fallback_ms` is the length given to a
/// whole transcript that comes without timing.
pub fn parse_deepgram_response(parsed: &DeepgramResponse, fallback_ms: u64) -> (r: Vec<TranscriptSegment>)
    ensures
        segs_view(r@) == deepgram_spec(*parsed, fallback_ms as nat),
{
    match &parsed.results {
        None => Vec::new(),
        Some(res) => {
            let s1 = match &res.utterances {
                Some(us) => keep_clean_exec(us),
                None => Vec::new(),
            };
            if s1.len() > 0 {
                return s1;
            }
            match &res.channels {
                Some(chs) => {
                    if chs.len() > 0 {
                        match &chs[0].alternatives {
                            Some(alts) => {
                                if alts.len() > 0 {
                                    alternative_exec(&alts[0], fallback_ms)
                                } else {
                                    Vec::new()
                                }
                            },
                            None => Vec::new(),
                        }
                    } else {
                        Vec::new()
                    }
                },
                None => Vec::new(),
            }
        },
    }
}

/// The `Authorization` header for a Deepgram key: the key as given when it already starts
/// with `Token ` or `Bearer `, else `Token ` and the key.
pub open spec fn auth_header_spec(key: Seq<char>) -> Seq<char> {
    if starts_with_seq(key, "Token "@) || starts_with_seq(key, "Bearer "@) {
        key
    } else {
        "Token "@ + key
    }
}

/// The `Authorization` header for a Deepgram key.
pub fn deepgram_auth_header(api_key: &str) -> (r: String)
    ensures
        r@ == auth_header_spec(api_key@),
{
    let k = chars_of(api_key);
    if starts_with(&k, &chars_of("Token ")) || starts_with(&k, &chars_of("Bearer ")) {
        api_key.to_owned()
    } else {
        let mut v = chars_of("Token ");
        push_all(&mut v, &k);
        string_of(&v)
    }
}

/// The vocabulary split at commas, semicolons and line breaks, each piece trimmed, the empty
/// ones dropped.
pub open spec fn keywords_spec(vocab: Seq<char>) -> Seq<Seq<char>> {
    nonempty_trimmed(split_any(vocab))
}

/// `s` split at every `,`, `;` and line break.
pub open spec fn split_any(s: Seq<char>) -> Seq<Seq<char>>
    decreases s.len(),
{
    if s.len() == 0 {
        seq![seq![]]
    } else {
        let r = split_any(s.drop_last());
        let c = s.last();
        if c == ',' || c == ';' || c == '\n' {
            r.push(seq![])
        } else {
            r.update(r.len() - 1, r.last().push(c))
        }
    }
}

pub open spec fn pairs_view(v: Seq<(String, String)>) -> Seq<(Seq<char>, Seq<char>)> {
    v.map_values(|p: (String, String)| (p.0@, p.1@))
}

/// The query of a Deepgram request: the Nova-3 model with smart formatting, punctuation,
/// utterances and paragraphs, then one `keywords` entry per vocabulary word.
pub open spec fn deepgram_query_spec(vocab: Option<Seq<char>>) -> Seq<(Seq<char>, Seq<char>)> {
    seq![
        ("model"@, "nova-3"@),
        ("smart_format"@, "true"@),
        ("punctuate"@, "true"@),
        ("utterances"@, "true"@),
        ("paragraphs"@, "true"@),
    ] + match vocab {
        Some(v) => keywords_spec(v).map_values(|w: Seq<char>| ("keywords"@, w)),
        None => seq![],
    }
}

fn split_any_exec(s: &Vec<char>) -> (r: Vec<Vec<char>>)
    ensures
        views(r@) == split_any(s@),
{
    let mut done: Vec<Vec<char>> = Vec::new();
    let mut cur: Vec<char> = Vec::new();
    let mut i: usize = 0;
    assert(views(done@).push(cur@) =~= split_any(s@.take(0)));
    while i < s.len()
        invariant
            i <= s@.len(),
            views(done@).push(cur@) == split_any(s@.take(i as int)),
        decreases s@.len() - i,
    {
        assert(s@.take(i + 1).drop_last() =~= s@.take(i as int));
        assert(s@.take(i + 1).last() == s@[i as int]);
        let ghost before = views(done@).push(cur@);
        let c = s[i];
        if c == ',' || c == ';' || c == '\n' {
            done.push(cur);
            cur = Vec::new();
            assert(views(done@).push(cur@) =~= before.push(seq![]));
        } else {
            cur.push(c);
            assert(views(done@).push(cur@) =~= before.update(before.len() - 1, before.last().push(c)));
        }
        i += 1;
    }
    assert(s@.take(s@.len() as int) =~= s@);
    done.push(cur);
    done
}

/// The query parameters of a Deepgram request, with the custom vocabulary as keywords.
pub fn deepgram_query(custom_vocab: Option<&str>) -> (r: Vec<(String, String)>)
    ensures
        pairs_view(r@) == deepgram_query_spec(match custom_vocab {
            Some(v) => Some(v@),
            None => None,
        }),
{
    let mut q: Vec<(String, String)> = Vec::new();
    q.push(("model".to_owned(), "nova-3".to_owned()));
    q.push(("smart_format".to_owned(), "true".to_owned()));
    q.push(("punctuate".to_owned(), "true".to_owned()));
    q.push(("utterances".to_owned(), "true".to_owned()));
    q.push(("paragraphs".to_owned(), "true".to_owned()));
    let ghost base = pairs_view(q@);
    assert(base =~= seq![
        ("model"@, "nova-3"@),
        ("smart_format"@, "true"@),
        ("punctuate"@, "true"@),
        ("utterances"@, "true"@),
        ("paragraphs"@, "true"@),
    ]);
    match custom_vocab {
        Some(v) => {
            let pieces = split_any_exec(&chars_of(v));
            let ghost ps = views(pieces@);
            let mut i: usize = 0;
            while i < pieces.len()
                invariant
                    i <= pieces@.len(),
                    ps == views(pieces@),
                    ps == split_any(v@),
                    pairs_view(q@) == base + nonempty_trimmed(ps.take(i as int)).map_values(
                        |w: Seq<char>| ("keywords"@, w),
                    ),
                decreases pieces@.len() - i,
            {
                assert(ps.take(i + 1).drop_last() =~= ps.take(i as int));
                assert(ps.take(i + 1).last() == pieces@[i as int]@);
                let t = trim(&pieces[i]);
                let ghost before = pairs_view(q@);
                if t.len() > 0 {
                    q.push(("keywords".to_owned(), string_of(&t)));
                    assert(pairs_view(q@) =~= before.push(("keywords"@, t@)));
                    assert(nonempty_trimmed(ps.take(i + 1)) == nonempty_trimmed(ps.take(i as int)).push(t@));
                    assert(nonempty_trimmed(ps.take(i + 1)).map_values(|w: Seq<char>| ("keywords"@, w))
                        =~= nonempty_trimmed(ps.take(i as int)).map_values(|w: Seq<char>| ("keywords"@, w)).push(("keywords"@, t@)));
                }
                i += 1;
            }
            assert(ps.take(ps.len() as int) =~= ps);
        },
        None => {
            assert(pairs_view(q@) =~= base + Seq::<(Seq<char>, Seq<char>)>::empty());
        },
    }
    q
}

} // verus!
