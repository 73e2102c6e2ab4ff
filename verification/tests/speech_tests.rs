use dabar_core::deepgram::{
    deepgram_auth_header, deepgram_query,
    parse_deepgram_response, DeepgramAlternative, DeepgramChannel, DeepgramParagraph,
    DeepgramParagraphs, DeepgramResponse, DeepgramResults, TimedText,
};
use dabar_core::models::TranscriptSegment;
use dabar_core::whisper::{
    build_whisper_prompt, chunk_plan, needs_chunking, clean_segment_text, collect_recognized_segments,
    is_hallucination_or_music, retry_delay_secs, stitch_transcript_chunks,
    transcription_error_body, whole_text_segment, RecognizedSegment,
};

fn seg(start_ms: u64, end_ms: u64, text: &str) -> TranscriptSegment {
    TranscriptSegment { start_ms, end_ms, text: text.to_string() }
}

fn tt(start_ms: u64, end_ms: u64, text: &str) -> TimedText {
    TimedText { start_ms, end_ms, text: text.to_string() }
}

#[test]
fn test_is_hallucination_or_music_youtube_credits() {
    let text = "Subtitles made by Jnkoil Lormar reading text in Nigerian English TCG John Lee Kankaraman Chilana Digo Stardom to Gordand Shurda Hydebo Loon Bible Podcasts";
    assert!(is_hallucination_or_music(text, None, None, None));
    assert!(is_hallucination_or_music("Subtitles by Community Contributor", None, None, None));
    assert!(is_hallucination_or_music("Closed captions by amara.org", None, None, None));
    assert!(is_hallucination_or_music("Thanks for watching, like and subscribe!", None, None, None));
}

#[test]
fn test_is_hallucination_or_music_repetition_loops() {
    assert!(is_hallucination_or_music("The Merec, The Merec, The Merec.", None, None, None));
    assert!(is_hallucination_or_music("Amen. Amen. Amen. Amen. Amen.", None, None, None));
}

#[test]
fn test_is_hallucination_or_music_consonant_salad() {
    let salad = "CKG, SLP H5 R6 Rea Apoosa, Bibernese, Tarniawongens... CTZ, H2 OMS TRIGS, MDT, PARA, KWDIEN, PPT, PARA, KULAGOSY, MIGATEI, ELMoHA GOLBYEN";
    assert!(is_hallucination_or_music(salad, None, None, None));
}

#[test]
fn test_is_hallucination_or_music_probabilities() {
    // Probabilities and ratios are given in millionths.
    assert!(is_hallucination_or_music("Some murmur", Some(850_000), None, None));
    assert!(is_hallucination_or_music("Some whisper", Some(450_000), None, Some(-950_000)));
    assert!(is_hallucination_or_music("A loop text", None, Some(2_400_000), None));
    let valid = "In the beginning was the Word, and the Word was with God, and the Word was God.";
    assert!(!is_hallucination_or_music(valid, Some(20_000), Some(1_200_000), Some(-150_000)));
}

#[test]
fn test_is_hallucination_or_music_music_tags() {
    assert!(is_hallucination_or_music("[Music]", None, None, None));
    assert!(is_hallucination_or_music("(music)", None, None, None));
    assert!(is_hallucination_or_music("♪ ♫ ♬ ♩", None, None, None));
    assert!(is_hallucination_or_music("[Applause]", None, None, None));
}

#[test]
fn test_clean_segment_text() {
    assert_eq!(clean_segment_text("♪ Jesus loves me this I know ♪"), "Jesus loves me this I know");
    assert_eq!(clean_segment_text("[Music] Hallelujah Jesus"), "Hallelujah Jesus");
    assert_eq!(clean_segment_text("♪ ♫ ♬"), "");
}

#[test]
fn test_valid_sermon_speech_is_not_filtered() {
    assert!(!is_hallucination_or_music(
        "Praise the Lord Jesus Christ, let us open our Bibles to the Book of Psalms.",
        None,
        None,
        None
    ));
    assert!(!is_hallucination_or_music(
        "Holy, Holy, Holy is the Lord God Almighty, who was and is and is to come.",
        None,
        None,
        None
    ));
    assert!(!is_hallucination_or_music("Amen.", None, None, None));
}

#[test]
fn whisper_prompt_appends_trimmed_vocabulary() {
    let base = "Hallelujah, Amen. Praise the Lord Jesus Christ. Let us open our Bibles to the Word of God today. Pastor, Apostle, Holy Spirit, Jehovah God.";
    assert_eq!(build_whisper_prompt(None), base);
    assert_eq!(build_whisper_prompt(Some("   ")), base);
    assert_eq!(build_whisper_prompt(Some("  RCCG, Adeboye ")), format!("{base} RCCG, Adeboye"));
}

#[test]
fn recognized_segments_are_filtered_cleaned_and_offset() {
    let raw = vec![
        RecognizedSegment {
            start_ms: 0,
            end_ms: 4000,
            text: " ♪ Grace abounds ♪ ".to_string(),
            no_speech_prob: Some(10_000),
            compression_ratio: Some(1_100_000),
            avg_logprob: Some(-200_000),
        },
        RecognizedSegment {
            start_ms: 4000,
            end_ms: 6000,
            text: "[Music]".to_string(),
            no_speech_prob: None,
            compression_ratio: None,
            avg_logprob: None,
        },
        RecognizedSegment {
            start_ms: 6000,
            end_ms: 9000,
            text: "Some murmur".to_string(),
            no_speech_prob: Some(900_000),
            compression_ratio: None,
            avg_logprob: None,
        },
    ];
    let out = collect_recognized_segments(&raw, 360_000);
    assert_eq!(out.len(), 1);
    assert_eq!(out[0].start_ms, 360_000);
    assert_eq!(out[0].end_ms, 364_000);
    assert_eq!(out[0].text, "Grace abounds");
}

#[test]
fn whole_text_becomes_one_segment() {
    let s = whole_text_segment("  God is good all the time  ", 1000, 30000).unwrap();
    assert_eq!((s.start_ms, s.end_ms, s.text.as_str()), (1000, 31000, "God is good all the time"));
    assert!(whole_text_segment("[Music]", 0, 30000).is_none());
}

#[test]
fn retries_back_off_on_rate_limits_and_server_errors() {
    assert_eq!(retry_delay_secs(Some(429), 1, 4), Some(2));
    assert_eq!(retry_delay_secs(Some(503), 2, 4), Some(4));
    assert_eq!(retry_delay_secs(None, 3, 4), Some(8));
    assert_eq!(retry_delay_secs(Some(429), 4, 4), None);
    assert_eq!(retry_delay_secs(Some(400), 1, 4), None);
}

#[test]
fn chunk_plan_overlaps_by_four_seconds() {
    assert_eq!(chunk_plan(0), vec![]);
    assert_eq!(chunk_plan(300_000), vec![(0, 300_000)]);
    assert_eq!(chunk_plan(800_000), vec![(0, 360_000), (356_000, 360_000), (712_000, 88_000)]);
    let plan = chunk_plan(3_600_000);
    let (last_start, last_len) = *plan.last().unwrap();
    assert_eq!(last_start + last_len, 3_600_000);
    for w in plan.windows(2) {
        assert_eq!(w[1].0, w[0].0 + 356_000);
    }
}

#[test]
fn stitching_drops_overlap_and_trims_starts() {
    let chunks = vec![
        (356_000, vec![seg(357_000, 362_000, "repeated"), seg(362_500, 370_000, "new")]),
        (0, vec![seg(0, 5_000, "first"), seg(355_000, 362_100, "overlap")]),
    ];
    let out = stitch_transcript_chunks(chunks);
    let view: Vec<(u64, u64, &str)> = out.iter().map(|s| (s.start_ms, s.end_ms, s.text.as_str())).collect();
    assert_eq!(
        view,
        vec![(0, 5_000, "first"), (355_000, 362_100, "overlap"), (362_500, 370_000, "new")]
    );
    for w in out.windows(2) {
        assert!(w[1].start_ms >= w[0].end_ms || w[1].start_ms + 300 > w[0].end_ms);
    }
}

#[test]
fn stitching_starts_overlapping_segment_where_previous_ends() {
    let chunks = vec![(0, vec![seg(0, 10_000, "a"), seg(9_000, 15_000, "b")])];
    let out = stitch_transcript_chunks(chunks);
    assert_eq!(out.len(), 2);
    assert_eq!((out[1].start_ms, out[1].end_ms), (10_000, 15_000));
}

#[test]
fn error_body_of_html_and_text_responses() {
    let html = "<!DOCTYPE html><html><body>Not here</body></html>";
    assert_eq!(
        transcription_error_body(html, 404, "404 Not Found", "https://x.test/v1/audio"),
        "Endpoint not found (404) at https://x.test/v1/audio. The provider does not support audio transcription on this endpoint."
    );
    assert_eq!(
        transcription_error_body("<html>oops</html>", 502, "502 Bad Gateway", "u"),
        "Server returned HTTP 502 Bad Gateway"
    );
    let long = "x".repeat(400);
    assert_eq!(transcription_error_body(&long, 500, "500", "u").len(), 300);
    assert_eq!(transcription_error_body("rate limit", 429, "429", "u"), "rate limit");
}

fn alt(transcript: Option<&str>, paragraphs: Option<DeepgramParagraphs>, words: Option<Vec<TimedText>>) -> DeepgramAlternative {
    DeepgramAlternative { transcript: transcript.map(|s| s.to_string()), paragraphs, words }
}

fn response(utterances: Option<Vec<TimedText>>, alternative: Option<DeepgramAlternative>) -> DeepgramResponse {
    DeepgramResponse {
        results: Some(DeepgramResults {
            channels: alternative.map(|a| vec![DeepgramChannel { alternatives: Some(vec![a]) }]),
            utterances,
        }),
    }
}

#[test]
fn deepgram_prefers_utterances() {
    let r = response(
        Some(vec![tt(0, 2000, " Grace and peace "), tt(2000, 3000, "[Music]")]),
        Some(alt(Some("ignored"), None, None)),
    );
    let out = parse_deepgram_response(&r, 60_000);
    assert_eq!(out.len(), 1);
    assert_eq!((out[0].start_ms, out[0].end_ms, out[0].text.as_str()), (0, 2000, "Grace and peace"));
}

#[test]
fn deepgram_falls_back_to_sentences_then_words_then_transcript() {
    let paragraphs = DeepgramParagraphs {
        paragraphs: Some(vec![
            DeepgramParagraph { sentences: Some(vec![tt(0, 1500, "Hello church.")]) },
            DeepgramParagraph { sentences: None },
            DeepgramParagraph { sentences: Some(vec![tt(1500, 3000, "God is good.")]) },
        ]),
    };
    let r = response(None, Some(alt(None, Some(paragraphs), None)));
    let out = parse_deepgram_response(&r, 60_000);
    let texts: Vec<&str> = out.iter().map(|s| s.text.as_str()).collect();
    assert_eq!(texts, vec!["Hello church.", "God is good."]);

    let vocab = [
        "Grace", "mercy", "peace", "love", "faith", "hope", "light", "truth", "life", "joy",
        "hallelujah", "amen",
    ];
    let words: Vec<TimedText> = (0..12u64).map(|i| tt(i * 500, i * 500 + 400, vocab[i as usize])).collect();
    let r2 = response(Some(vec![]), Some(alt(Some("whole"), None, Some(words))));
    let out2 = parse_deepgram_response(&r2, 60_000);
    assert_eq!(out2.len(), 2);
    assert_eq!(out2[0].text, "Grace mercy peace love faith hope light truth life joy");
    assert_eq!((out2[0].start_ms, out2[0].end_ms), (0, 4900));
    assert_eq!((out2[1].text.as_str(), out2[1].start_ms, out2[1].end_ms), ("hallelujah amen", 5000, 5900));

    let r3 = response(None, Some(alt(Some("  The whole sermon text  "), None, Some(vec![]))));
    let out3 = parse_deepgram_response(&r3, 42_000);
    assert_eq!(out3.len(), 1);
    assert_eq!((out3[0].start_ms, out3[0].end_ms, out3[0].text.as_str()), (0, 42_000, "The whole sermon text"));

    assert!(parse_deepgram_response(&DeepgramResponse { results: None }, 1000).is_empty());
}

#[test]
fn long_or_large_recordings_are_chunked() {
    assert!(!needs_chunking(3 * 1024 * 1024, 419_999));
    assert!(needs_chunking(3 * 1024 * 1024 + 1, 0));
    assert!(needs_chunking(0, 420_000));
}

#[test]
fn deepgram_request_header_and_query() {
    assert_eq!(deepgram_auth_header("abc"), "Token abc");
    assert_eq!(deepgram_auth_header("Bearer xyz"), "Bearer xyz");
    assert_eq!(deepgram_auth_header("Token t"), "Token t");
    let q = deepgram_query(Some(" RCCG ; Adeboye,\n, Shiloh"));
    let view: Vec<(&str, &str)> = q.iter().map(|(a, b)| (a.as_str(), b.as_str())).collect();
    assert_eq!(
        view,
        vec![
            ("model", "nova-3"),
            ("smart_format", "true"),
            ("punctuate", "true"),
            ("utterances", "true"),
            ("paragraphs", "true"),
            ("keywords", "RCCG"),
            ("keywords", "Adeboye"),
            ("keywords", "Shiloh"),
        ]
    );
    assert_eq!(deepgram_query(None).len(), 5);
}

#[test]
fn whitespace_class_matches_std_on_every_char() {
    for u in 0u32..=0x10FFFF {
        if let Some(c) = char::from_u32(u) {
            assert_eq!(dabar_core::text::is_whitespace(c), c.is_whitespace(), "U+{u:04X}");
        }
    }
}
