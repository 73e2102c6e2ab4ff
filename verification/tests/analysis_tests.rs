use dabar_core::ffmpeg::AudioPeak;
use dabar_core::llm::{
    analyze_sermon_offline_heuristics, analyze_sermon_offline_heuristics_with_audio,
    chapters_from_candidates, condense_transcript_to_words, extract_json_payload, format_segments_to_prompt, format_timestamp,
    highlights_from_candidates, parse_timestamp_text, parse_timestamp_value, segment_importance_score,
    validate_chapters, TimestampValue,
    ChapterCandidate, HighlightCandidate, HighlightDetectionStatus, CLIP_MAX_MS, CLIP_MIN_MS,
};
use dabar_core::models::{Chapter, TranscriptSegment};

fn seg(start_ms: u64, end_ms: u64, text: &str) -> TranscriptSegment {
    TranscriptSegment { start_ms, end_ms, text: text.to_string() }
}

#[test]
fn test_segment_importance_score_scripture() {
    let seg_with_ref = seg(
        10000,
        18000,
        "Open your bibles and turn to Romans 8:28, where we know all things work together for good!",
    );
    let seg_plain = seg(18000, 26000, "We parked the car on the street yesterday morning.");
    let score_ref = segment_importance_score(&seg_with_ref);
    let score_plain = segment_importance_score(&seg_plain);
    assert!(score_ref >= 5000, "Scripture citation + intro + exclamation should yield high score, got {score_ref}");
    assert!(score_plain < 2000, "Plain conversational segment should score low, got {score_plain}");
}

#[test]
fn test_segment_importance_score_markers_and_imperatives() {
    let seg_key_point = seg(30000, 38000, "Point number one: by the grace of God, you are victorious in Christ!");
    let seg_imperative = seg(40000, 48000, "Listen to me! Write this down right now: don't miss this truth!");
    let score_kp = segment_importance_score(&seg_key_point);
    let score_imp = segment_importance_score(&seg_imperative);
    assert!(score_kp >= 4000, "Key point + theological declaration should score high, got {score_kp}");
    assert!(score_imp >= 4000, "Attention call + imperative + exclamation should score high, got {score_imp}");
}

fn synthetic_sermon() -> Vec<TranscriptSegment> {
    let mut segments = Vec::new();
    let mut t: u64 = 0;
    for i in 0..9 {
        segments.push(seg(t, t + 5000, &format!("Good morning church, welcome to service part {i}.")));
        t += 5000;
    }
    segments.push(seg(t, t + 6000, "Listen to me closely church. Open your bibles to John 3:16."));
    t += 6000;
    segments.push(seg(t, t + 8000, "For God so loved the world that He gave His only begotten Son!"));
    t += 8000;
    segments.push(seg(t, t + 10000, "Point number one: by the grace of God you have eternal life through Jesus Christ!"));
    t += 10000;
    segments.push(seg(t, t + 10000, "Don't miss this! Write this down in your heart forever."));
    t += 10000;
    segments.push(seg(t, t + 8000, "Whoever believes in Him shall not perish but have everlasting peace."));
    t += 8000;
    while t < 180000 {
        segments.push(seg(t, (t + 6000).min(180000), "Let us pray as we conclude our gathering today."));
        t += 6000;
    }
    segments
}

#[test]
fn test_offline_clustering_bounds_and_duration() {
    let segments = synthetic_sermon();
    let result = analyze_sermon_offline_heuristics(&segments);
    assert!(!result.highlights_report.highlights.is_empty(), "Should generate highlights");
    for hl in &result.highlights_report.highlights {
        let dur = hl.end_ms - hl.start_ms;
        assert!(dur >= CLIP_MIN_MS - 100, "Clip duration {dur}ms must be >= min {CLIP_MIN_MS}ms");
        assert!(dur <= CLIP_MAX_MS + 100, "Clip duration {dur}ms must be <= max {CLIP_MAX_MS}ms");
        assert!(hl.score_bp >= 7500 && hl.score_bp <= 10000, "Highlight score must be valid, got {}", hl.score_bp);
        assert!(!hl.title.is_empty(), "Highlight title should not be empty");
        assert!(!hl.reason.is_empty(), "Highlight reason should not be empty");
    }
    let found_scripture = result
        .highlights_report
        .highlights
        .iter()
        .any(|h| h.title.contains("John 3:16") || h.reason.contains("John 3:16"));
    assert!(found_scripture, "Climax highlight should detect John 3:16");
}

#[test]
fn offline_highlights_come_in_order_of_start() {
    let result = analyze_sermon_offline_heuristics(&synthetic_sermon());
    let hs = &result.highlights_report.highlights;
    for w in hs.windows(2) {
        assert!(w[0].start_ms <= w[1].start_ms);
    }
    assert_eq!(result.highlights_report.total_passed, hs.len());
    assert_eq!(result.highlights_report.status, HighlightDetectionStatus::Heuristic);
}

#[test]
fn offline_highlights_are_few_and_35_seconds_apart() {
    let result = analyze_sermon_offline_heuristics(&synthetic_sermon());
    let hs = &result.highlights_report.highlights;
    assert!(hs.len() <= 3);
    for w in hs.windows(2) {
        assert!(w[0].end_ms + 35_000 <= w[1].start_ms);
    }
    let quiet: Vec<TranscriptSegment> =
        (0..100).map(|i| seg(i * 6000, i * 6000 + 6000, "and so we go on")).collect();
    let fallback = analyze_sermon_offline_heuristics(&quiet);
    let fh = &fallback.highlights_report.highlights;
    assert_eq!(fh.len(), 3);
    assert_eq!((fh[0].start_ms, fh[0].end_ms), (150_000, 210_000));
    assert_eq!((fh[1].start_ms, fh[1].end_ms), (300_000, 360_000));
    assert_eq!((fh[2].start_ms, fh[2].end_ms), (450_000, 510_000));
    for w in fh.windows(2) {
        assert!(w[0].end_ms + 35_000 <= w[1].start_ms);
    }
}

#[test]
fn test_analyze_sermon_offline_with_audio_peaks() {
    let segments = vec![
        seg(0, 15000, "Welcome to today's teaching."),
        seg(15000, 35000, "Listen to me! Romans 8:28 is the foundation of our hope!"),
        seg(35000, 55000, "All things work together for good to those who love God!"),
        seg(55000, 75000, "Amen and hallelujah."),
    ];
    let peaks = vec![AudioPeak { timestamp_ms: 20000, loudness_milli_lufs: -12000, relative_energy_bp: 9500 }];
    let result_audio = analyze_sermon_offline_heuristics_with_audio(&segments, Some(&peaks));
    let result_no_audio = analyze_sermon_offline_heuristics(&segments);
    assert!(!result_audio.highlights_report.highlights.is_empty());
    let hl_audio = &result_audio.highlights_report.highlights[0];
    let hl_no_audio = &result_no_audio.highlights_report.highlights[0];
    assert!(hl_audio.score_bp >= hl_no_audio.score_bp, "Audio peak should boost highlight score");
    assert!(
        hl_audio.reason.contains("vocal") || hl_audio.reason.contains("emphasis") || hl_audio.reason.contains("energy"),
        "Highlight reason should note dynamic audio energy: {}",
        hl_audio.reason
    );
}

#[test]
fn offline_analysis_of_nothing() {
    let r = analyze_sermon_offline_heuristics(&[]);
    assert!(r.chapters.is_empty());
    assert!(r.highlights_report.highlights.is_empty());
    assert_eq!(r.highlights_report.status, HighlightDetectionStatus::NoCandidatesProposed);
}

#[test]
fn timestamps_and_prompt_lines() {
    assert_eq!(format_timestamp(0), "[00:00:00]");
    assert_eq!(format_timestamp(3_723_999), "[01:02:03]");
    let p = format_segments_to_prompt(&[seg(0, 1000, "Hello"), seg(61_000, 62_000, "World")]);
    assert!(p.contains("[00:00:00] Hello"));
    assert!(p.contains("[00:01:01] World"));
}

#[test]
fn json_payload_is_found_in_replies() {
    assert_eq!(extract_json_payload("```json\n{\"a\":1}\n```"), "{\"a\":1}");
    assert_eq!(extract_json_payload("Here you go: {\"a\":1} thanks"), "{\"a\":1}");
}

#[test]
fn timestamps_written_by_models() {
    assert_eq!(parse_timestamp_text("[01:02:03]"), Some(3_723_000));
    assert_eq!(parse_timestamp_text("02:15.5"), Some(135_500));
    assert_eq!(parse_timestamp_text("45"), Some(45_000));
    assert_eq!(parse_timestamp_text("soon"), None);
    assert_eq!(parse_timestamp_value(&TimestampValue::Number(45_500)), Some(45_500));
    assert_eq!(parse_timestamp_value(&TimestampValue::Text("1:30".to_string())), Some(90_000));
    assert_eq!(parse_timestamp_value(&TimestampValue::Other), None);
}

#[test]
fn timestamps_in_every_form_a_float_takes() {
    assert_eq!(parse_timestamp_text("+12"), Some(12_000));
    assert_eq!(parse_timestamp_text("1e2"), Some(100_000));
    assert_eq!(parse_timestamp_text("1.2345E1"), Some(12_345));
    assert_eq!(parse_timestamp_text("12345e-3"), Some(12_345));
    assert_eq!(parse_timestamp_text("5e-4"), Some(0));
    assert_eq!(parse_timestamp_text("0e999999999999999999999999999999999999999999"), Some(0));
    assert_eq!(parse_timestamp_text("1e999999999999999999999999999999999999999999"), None);
    assert_eq!(parse_timestamp_text("1:1.5e1"), Some(75_000));
    assert_eq!(parse_timestamp_text("-5"), None);
    assert_eq!(parse_timestamp_text("inf"), None);
    assert_eq!(parse_timestamp_text("1e"), None);
    assert_eq!(parse_timestamp_text("e5"), None);
    assert_eq!(parse_timestamp_text("."), None);
}

fn chapter(id: u128, start_ms: u64, end_ms: u64) -> Chapter {
    Chapter { id, title: format!("c{id}"), summary: String::new(), start_ms, end_ms }
}

#[test]
fn chapters_are_sorted_and_trimmed() {
    let out = validate_chapters(vec![
        chapter(2, 100_000, 250_000),
        chapter(1, 0, 120_000),
        chapter(3, 300_000, 300_000),
    ]);
    let v: Vec<(u128, u64, u64)> = out.iter().map(|c| (c.id, c.start_ms, c.end_ms)).collect();
    assert_eq!(v, vec![(1, 0, 100_000), (2, 100_000, 250_000)]);
    assert!(validate_chapters(vec![]).is_empty());
}

#[test]
fn chapter_candidates_become_chapters() {
    let cands = vec![
        ChapterCandidate { title: Some(" Opening ".to_string()), summary: None, start_ms: Some(0), end_ms: Some(60_000) },
        ChapterCandidate { title: None, summary: Some("s".to_string()), start_ms: None, end_ms: Some(1) },
    ];
    let out = chapters_from_candidates(&cands, &[7, 8]);
    assert_eq!(out.len(), 1);
    assert_eq!(out[0].id, 7);
    assert_eq!(out[0].start_ms, 0);
    assert_eq!(out[0].end_ms, 60_000);
}

fn cand(title: Option<&str>, start: Option<u64>, end: Option<u64>) -> HighlightCandidate {
    HighlightCandidate {
        title: title.map(|s| s.to_string()),
        start_ms: start,
        end_ms: end,
        reason: None,
        suggested_hook_text: None,
        score_bp: None,
    }
}

#[test]
fn highlight_candidates_kept_or_turned_down() {
    let cands = vec![
        cand(Some(" Grace "), Some(10_000), Some(70_000)),
        cand(None, None, Some(5)),
        cand(Some("No end"), Some(1), None),
        cand(Some("Backwards"), Some(50_000), Some(40_000)),
        cand(Some("Short"), Some(0), Some(12_500)),
    ];
    let (kept, discarded, total) = highlights_from_candidates(&cands, &[11, 12, 13, 14, 15]);
    assert_eq!(total, 5);
    assert_eq!(kept.len(), 1);
    let h = &kept[0];
    assert_eq!((h.id, h.title.as_str(), h.start_ms, h.end_ms, h.score_bp), (11, "Grace", 10_000, 70_000, 9000));
    assert_eq!(h.reason, "High-impact moment.");
    assert_eq!(h.suggested_hook_text, "Grace");
    let reasons: Vec<&str> = discarded.iter().map(|d| d.reason.as_str()).collect();
    assert_eq!(reasons, vec!["Missing start", "Missing end", "end <= start", "12s < min 25s"]);
    assert_eq!(discarded[0].title, "Sermon Highlight");
    assert_eq!(discarded[2].duration_ms, Some(-10_000));
    assert_eq!(kept.len() + discarded.len(), total);
}

#[test]
fn proposed_clips_from_25_to_120_seconds_are_kept_and_cut_to_90() {
    let cands = vec![
        cand(Some("T"), Some(0), Some(27_000)),
        cand(Some("Long"), Some(1_000), Some(111_000)),
        cand(Some("Too long"), Some(0), Some(150_000)),
        cand(Some("Just short"), Some(0), Some(24_999)),
    ];
    let (kept, discarded, total) = highlights_from_candidates(&cands, &[1, 2, 3, 4]);
    assert_eq!(total, 4);
    assert_eq!(kept.len(), 2);
    assert_eq!((kept[0].start_ms, kept[0].end_ms), (0, 27_000));
    assert_eq!((kept[1].id, kept[1].start_ms, kept[1].end_ms), (2, 1_000, 91_000));
    let reasons: Vec<&str> = discarded.iter().map(|d| d.reason.as_str()).collect();
    assert_eq!(reasons, vec!["150s > max 120s", "25s < min 25s"]);
    assert_eq!(discarded[0].duration_ms, Some(150_000));
}

#[test]
fn short_transcript_is_kept_whole_when_condensed() {
    let segs = vec![seg(0, 4000, "Grace and peace to you."), seg(4000, 9000, " Let us open the word. ")];
    let full = format_segments_to_prompt(&segs);
    assert_eq!(condense_transcript_to_words(&segs, 1000), full);
    assert_eq!(full, "[00:00:00] Grace and peace to you.\n[00:00:04] Let us open the word.");
}

#[test]
fn long_transcript_condensed_to_kept_lines_and_notes() {
    let segs: Vec<TranscriptSegment> = (0..40)
        .map(|i| seg(i * 10_000, i * 10_000 + 9_000, &format!("word{i} more words here today friends")))
        .collect();
    let full = format_segments_to_prompt(&segs);
    let lines: Vec<&str> = full.split('\n').collect();
    let out = condense_transcript_to_words(&segs, 60);
    let mut last: Option<usize> = None;
    let mut words = 0;
    let mut pending_note = false;
    for l in out.split('\n') {
        if l.starts_with("  ... [") {
            assert!(!pending_note);
            pending_note = true;
            continue;
        }
        let idx = lines.iter().position(|x| *x == l).expect("a prompt line");
        match last {
            None => assert_eq!(idx, 0),
            Some(p) => {
                assert!(idx > p);
                assert_eq!(pending_note, idx > p + 1);
            }
        }
        pending_note = false;
        words += l.split_whitespace().count();
        last = Some(idx);
    }
    assert!(words <= 60);
}
