use dabar_core::models::TranscriptSegment;
use dabar_core::structuring::{
    apply_custom_vocabulary, detect_scripture_references, detect_section_title,
    parse_chapter_verse, structure_transcript,
};

fn seg(start_ms: u64, end_ms: u64, text: &str) -> TranscriptSegment {
    TranscriptSegment { start_ms, end_ms, text: text.to_string() }
}

#[test]
fn test_detect_scripture_references() {
    let text = "Turn with me to John 3:16 where Jesus reveals the love of God.";
    let refs = detect_scripture_references(text, 10000);
    assert_eq!(refs.len(), 1);
    assert_eq!(refs[0].book, "John");
    assert_eq!(refs[0].reference, "John 3:16");
    assert_eq!(refs[0].timestamp_ms, 10000);
}

#[test]
fn test_detect_scripture_spoken_variations() {
    let text1 = "Look at Romans chapter 8 verse 28 where we see all things work together.";
    let refs1 = detect_scripture_references(text1, 5000);
    assert_eq!(refs1.len(), 1);
    assert_eq!(refs1[0].book, "Romans");
    assert_eq!(refs1[0].reference, "Romans 8:28");

    let text2 = "Let us read from Psalm 23 for comfort.";
    let refs2 = detect_scripture_references(text2, 12000);
    assert_eq!(refs2.len(), 1);
    assert_eq!(refs2[0].book, "Psalm");
    assert_eq!(refs2[0].reference, "Psalm 23");

    let text3 = "In First Corinthians 13:4-8 Paul describes love.";
    let refs3 = detect_scripture_references(text3, 20000);
    assert_eq!(refs3.len(), 1);
    assert_eq!(refs3[0].book, "1 Corinthians");
    assert_eq!(refs3[0].reference, "1 Corinthians 13:4-8");

    let text4 = "Remember 2nd Timothy 1:7, God gave us a spirit of power.";
    let refs4 = detect_scripture_references(text4, 30000);
    assert_eq!(refs4.len(), 1);
    assert_eq!(refs4[0].book, "2 Timothy");
    assert_eq!(refs4[0].reference, "2 Timothy 1:7");
}

#[test]
fn test_detect_scripture_avoids_false_positives() {
    let text = "He interacts with candidates in the job market, and mark my words, they succeed.";
    let refs = detect_scripture_references(text, 15000);
    assert_eq!(refs.len(), 0, "Common words should not trigger false positive citations");
}

#[test]
fn scripture_references_come_in_order_of_appearance_and_unique() {
    let text = "Romans 8:28 and John 3:16, then again John 3:16.";
    let refs = detect_scripture_references(text, 0);
    let names: Vec<&str> = refs.iter().map(|r| r.reference.as_str()).collect();
    assert_eq!(names, vec!["Romans 8:28", "John 3:16"]);
    for r in &refs {
        assert!(r.reference.starts_with(r.book.as_str()));
    }
}

#[test]
fn scripture_references_keep_reading_order() {
    let refs = detect_scripture_references("Read Romans 8:28 and then John 3:16", 0);
    let names: Vec<&str> = refs.iter().map(|r| r.reference.as_str()).collect();
    assert_eq!(names, vec!["Romans 8:28", "John 3:16"]);
    let later = detect_scripture_references("John 3:16, Romans 8:28, and John 3:16 again", 0);
    let names: Vec<&str> = later.iter().map(|r| r.reference.as_str()).collect();
    assert_eq!(names, vec!["John 3:16", "Romans 8:28"]);
}

#[test]
fn test_structure_transcript_groups_paragraphs() {
    let segs = vec![
        seg(0, 3000, "Good morning church."),
        seg(3200, 6000, "It is wonderful to be here today."),
        seg(8000, 12000, "Turn with me to Romans 8:28."),
    ];
    let structured = structure_transcript(&segs, "");
    assert_eq!(structured.sections.len(), 2);
    assert_eq!(structured.sections[0].paragraphs.len(), 1);
    assert_eq!(structured.sections[0].paragraphs[0].segments.len(), 2);
}

#[test]
fn pause_of_exactly_the_limit_keeps_one_paragraph() {
    let segs = vec![seg(0, 1000, "hello"), seg(2200, 3000, "world")];
    let structured = structure_transcript(&segs, "");
    assert_eq!(structured.sections.len(), 1);
    assert_eq!(structured.sections[0].paragraphs.len(), 1);
    assert_eq!(structured.sections[0].paragraphs[0].text, "hello world");
    let split = structure_transcript(&[seg(0, 1000, "hello"), seg(2201, 3000, "world")], "");
    assert_eq!(split.sections[0].paragraphs.len(), 2);
}

#[test]
fn structure_keeps_every_segment_in_order() {
    let segs = vec![
        seg(0, 3000, "Good morning church."),
        seg(3200, 6000, "It is wonderful to be here today."),
        seg(8000, 12000, "Turn with me to Romans 8:28."),
        seg(12100, 15000, "In conclusion, God is good."),
    ];
    let structured = structure_transcript(&segs, "");
    let mut texts = Vec::new();
    for s in &structured.sections {
        assert!(!s.paragraphs.is_empty());
        for p in &s.paragraphs {
            assert!(!p.segments.is_empty());
            for x in &p.segments {
                texts.push(x.text.clone());
            }
        }
    }
    let expected: Vec<String> = segs.iter().map(|s| s.text.clone()).collect();
    assert_eq!(texts, expected);
    assert_eq!(structured.scripture_references.len(), 1);
    assert_eq!(structured.scripture_references[0].reference, "Romans 8:28");
}

#[test]
fn section_titles_from_markers() {
    assert_eq!(detect_section_title("Now let us PRAY together"), Some("Let us pray".to_string()));
    assert_eq!(detect_section_title("And in closing, remember"), Some("In closing".to_string()));
    assert_eq!(detect_section_title("Nothing to see here"), None);
}

#[test]
fn chapter_and_verse_forms() {
    assert_eq!(parse_chapter_verse("3:16 says"), Some("3:16".to_string()));
    assert_eq!(parse_chapter_verse("chapter 8 verse 28"), Some("8:28".to_string()));
    assert_eq!(parse_chapter_verse("23 for comfort"), Some("23".to_string()));
    assert_eq!(parse_chapter_verse("for comfort"), None);
}

#[test]
fn custom_vocabulary_fixes_spelling_case_insensitively() {
    let mut segs = vec![seg(0, 1000, "welcome to rccg today, RCCG family"), seg(1000, 2000, "no change")];
    apply_custom_vocabulary(&mut segs, " RCCG , ,Hillsong");
    assert_eq!(segs[0].text, "welcome to RCCG today, RCCG family");
    assert_eq!(segs[1].text, "no change");
    assert_eq!(segs[0].start_ms, 0);
    assert_eq!(segs[1].end_ms, 2000);
    let mut untouched = vec![seg(0, 1000, "rccg")];
    apply_custom_vocabulary(&mut untouched, "   ");
    assert_eq!(untouched[0].text, "rccg");
}

#[test]
fn vocabulary_applied_twice_changes_nothing_more() {
    let mut segs = vec![seg(0, 1000, "ab AB aB hillsong"), seg(1000, 2000, "HILLSONG ab")];
    apply_custom_vocabulary(&mut segs, "Ab, aB, HillSong");
    let once: Vec<String> = segs.iter().map(|s| s.text.clone()).collect();
    assert_eq!(once, vec!["aB aB aB HillSong".to_string(), "HillSong aB".to_string()]);
    apply_custom_vocabulary(&mut segs, "Ab, aB, HillSong");
    let twice: Vec<String> = segs.iter().map(|s| s.text.clone()).collect();
    assert_eq!(once, twice);
}

#[test]
fn sections_counted_and_spanned() {
    let segs = vec![
        seg(0, 2000, "Welcome everyone."),
        seg(2100, 4000, "Let us pray."),
        seg(4100, 6000, "Father we thank you."),
        seg(9000, 11000, "In conclusion, God is good."),
    ];
    let st = structure_transcript(&segs, "");
    assert_eq!(st.sections.len(), 3);
    for s in &st.sections {
        assert_eq!(s.start_ms, s.paragraphs[0].start_ms);
        assert_eq!(s.end_ms, s.paragraphs.last().unwrap().end_ms);
        for p in &s.paragraphs {
            assert_eq!(p.start_ms, p.segments[0].start_ms);
            assert_eq!(p.end_ms, p.segments.last().unwrap().end_ms);
        }
    }
    assert_eq!(st.sections[1].title, "Let us pray");
    assert_eq!(st.sections[2].paragraphs[0].segments[0].start_ms, 9000);
    assert_eq!(detect_section_title("Please TURN WITH ME TO John 3"), Some("Turn with me to".to_string()));
}
