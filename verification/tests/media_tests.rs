use dabar_core::clip::{clip_ffmpeg_args, clip_frame, secs3_text, video_section_plan, InvalidClipBounds};
use dabar_core::ffmpeg::{
    compute_segment_audio_energy, escape_ffmpeg_filter_path, format_ass_time,
    generate_ass_subtitles, parse_ebur128_output, parse_ffmpeg_duration, AudioPeak,
};
use dabar_core::models::TranscriptSegment;

fn seg(start_ms: u64, end_ms: u64, text: &str) -> TranscriptSegment {
    TranscriptSegment { start_ms, end_ms, text: text.to_string() }
}

#[test]
fn test_format_ass_time() {
    assert_eq!(format_ass_time(0), "0:00:00.00");
    assert_eq!(format_ass_time(1234), "0:00:01.23");
    assert_eq!(format_ass_time(65500), "0:01:05.50");
    assert_eq!(format_ass_time(3661050), "1:01:01.05");
}

#[test]
fn test_escape_ffmpeg_filter_path() {
    let escaped = escape_ffmpeg_filter_path("C:\\Users\\Dabar\\output.ass");
    assert!(escaped.starts_with('\'') && escaped.ends_with('\''));
    assert!(escaped.contains("C\\:/Users/Dabar/output.ass"));
}

#[test]
fn test_generate_ass_subtitles_amber() {
    let segs = vec![
        seg(10000, 15000, "The grace of God appeared to all."),
        seg(16000, 20000, "Bringing salvation for everyone."),
    ];
    let ass = generate_ass_subtitles(&segs, 10000, 20000, 10000, 1080, 1920, "amber")
        .expect("should generate ASS subtitles");
    assert!(ass.contains("[Script Info]"));
    assert!(ass.contains("PlayResX: 1080"));
    assert!(ass.contains("PlayResY: 1920"));
    assert!(ass.contains("Style: Default,Segoe UI,54,&H00FFFFFF,&H000000FF,&H003A91D4,&H80000000"));
    assert!(ass.contains(
        "Dialogue: 0,0:00:10.00,0:00:15.00,Default,,0,0,0,,The grace of God appeared to all."
    ));
    assert!(ass.contains(
        "Dialogue: 0,0:00:16.00,0:00:20.00,Default,,0,0,0,,Bringing salvation for everyone."
    ));
}

#[test]
fn test_generate_ass_subtitles_kinetic() {
    let segs = vec![seg(0, 5000, "Faith moves mountains!")];
    let ass = generate_ass_subtitles(&segs, 0, 5000, 0, 1920, 1080, "kinetic")
        .expect("should generate kinetic ASS");
    assert!(ass.contains("BorderStyle, Outline, Shadow"));
    assert!(ass.contains("FAITH MOVES MOUNTAINS!"));
    assert!(ass.contains(",3,6.0,0.0,2,"));
}

#[test]
fn test_generate_ass_subtitles_editorial() {
    let segs = vec![seg(5000, 12000, "In the beginning was the Word.")];
    let ass = generate_ass_subtitles(&segs, 5000, 12000, 5000, 1080, 1080, "editorial")
        .expect("should generate editorial ASS");
    assert!(ass.contains("Georgia"));
    assert!(ass.contains("&H00E8F4FD"));
    assert!(ass.contains("In the beginning was the Word."));
}

#[test]
fn test_generate_ass_subtitles_out_of_bounds() {
    let segs = vec![seg(100000, 105000, "Far away in the sermon.")];
    let ass = generate_ass_subtitles(&segs, 10000, 20000, 10000, 1080, 1920, "amber");
    assert!(ass.is_none());
}

#[test]
fn test_parse_ffmpeg_duration_standard() {
    let sample = "Input #0, mp3, from 'test.mp3':\n  Duration: 01:23:45.67, start: 0.000000, bitrate: 128 kb/s";
    let dur = parse_ffmpeg_duration(sample).expect("should parse duration");
    assert_eq!(dur, 5025670);
}

#[test]
fn test_parse_ffmpeg_duration_short() {
    let sample = "Duration: 00:02:15.50, start: 0.000000";
    let dur = parse_ffmpeg_duration(sample).expect("should parse duration");
    assert_eq!(dur, 135500);
}

#[test]
fn test_parse_ffmpeg_duration_invalid() {
    let sample = "No duration line present here";
    assert!(parse_ffmpeg_duration(sample).is_none());
}

#[test]
fn test_parse_ebur128_output() {
    let sample = r#"
[Parsed_ebur128_0 @ 0000028fb2e64f80] t: 0.100000 TARGET:-23 LUFS M: -24.0 S:-120.7 I: -24.0 LUFS LRA: 0.0 LU
[Parsed_ebur128_0 @ 0000028fb2e64f80] t: 1.200000 TARGET:-23 LUFS M: -24.5 S:-120.7 I: -24.0 LUFS LRA: 0.0 LU
[Parsed_ebur128_0 @ 0000028fb2e64f80] t: 5.100000 TARGET:-23 LUFS M: -14.0 S:-20.0 I: -22.0 LUFS LRA: 2.0 LU
[Parsed_ebur128_0 @ 0000028fb2e64f80] t: 5.500000 TARGET:-23 LUFS M: -12.0 S:-18.0 I: -21.0 LUFS LRA: 3.0 LU
[Parsed_ebur128_0 @ 0000028fb2e64f80] Summary:

  Integrated loudness:
    I:         -24.0 LUFS
    Threshold: -34.0 LUFS

  Loudness range:
    LRA:         5.0 LU
"#;
    let profile = parse_ebur128_output(sample);
    assert_eq!(profile.integrated_loudness_milli, -24000);
    assert_eq!(profile.loudness_range_milli, 5000);
    assert_eq!(profile.peaks.len(), 1);
    let peak = &profile.peaks[0];
    assert_eq!(peak.timestamp_ms, 5500);
    assert_eq!(peak.loudness_milli_lufs, -12000);
    assert_eq!(peak.relative_energy_bp, 10000);
}

#[test]
fn test_compute_segment_audio_energy() {
    let peaks = vec![
        AudioPeak { timestamp_ms: 10500, loudness_milli_lufs: -18000, relative_energy_bp: 6000 },
        AudioPeak { timestamp_ms: 25500, loudness_milli_lufs: -12000, relative_energy_bp: 9500 },
    ];
    assert_eq!(compute_segment_audio_energy(&peaks, 10000, 15000), 6000);
    assert_eq!(compute_segment_audio_energy(&peaks, 20000, 30000), 9500);
    assert_eq!(compute_segment_audio_energy(&peaks, 0, 5000), 0);
}

#[test]
fn energy_is_the_highest_peak_in_range() {
    let peaks = vec![
        AudioPeak { timestamp_ms: 1000, loudness_milli_lufs: -20000, relative_energy_bp: 3000 },
        AudioPeak { timestamp_ms: 2000, loudness_milli_lufs: -15000, relative_energy_bp: 7000 },
        AudioPeak { timestamp_ms: 3000, loudness_milli_lufs: -18000, relative_energy_bp: 5000 },
    ];
    assert_eq!(compute_segment_audio_energy(&peaks, 0, 4000), 7000);
    assert_eq!(compute_segment_audio_energy(&peaks, 2500, 4000), 5000);
}

#[test]
fn test_ass_subtitles_adversarial_strings() {
    let adversarial_segments = vec![
        seg(0, 4000, "Read John 3:16 & Genesis 1:1-3: \"God's 100% Grace > 0% Works\"!"),
        seg(4500, 8000, "Blessings 🙏🔥✝️! Hebrew: בְּרֵאשִׁית, Greek: Ἐν ἀρχῇ, Chinese: 神爱世人"),
        seg(8500, 12000, "Malicious tag attempt: {\\b1\\c&H0000FF&}Injected{\\b0} and {override_tag}"),
        seg(12500, 16000, "Path: C:\\Program Files\\Dabar\\bin\\ffmpeg.exe\r\nLine 2 with \\N and \\h"),
        seg(16500, 20000, "Comma, test,, triple,,, quadruple,,,, multiple fields!"),
        seg(20500, 24000, "Pastor's sermon; part 'A'; part 'B'; don't fail!"),
    ];
    for style in &["amber", "kinetic", "editorial"] {
        let ass = generate_ass_subtitles(&adversarial_segments, 0, 25000, 0, 1080, 1920, style)
            .expect("should generate ASS without error");
        assert!(ass.contains("[Script Info]"));
        assert!(ass.contains("[V4+ Styles]"));
        assert!(ass.contains("[Events]"));
        assert!(!ass.contains("{\\b1"), "Curly braces must be sanitized");
        if *style == "kinetic" {
            assert!(
                ass.contains("(\\B1\\C&H0000FF&)INJECTED(\\B0)"),
                "Braces should be converted to parentheses and text uppercased"
            );
        } else {
            assert!(
                ass.contains("(\\b1\\c&H0000FF&)Injected(\\b0)"),
                "Braces should be converted to parentheses"
            );
        }
        if *style == "kinetic" {
            assert!(ass.contains("JOHN 3:16"));
        } else {
            assert!(ass.contains("John 3:16"));
        }
        assert!(ass.contains("🙏🔥✝️"));
        assert!(ass.contains("בְּרֵאשִׁית"));
        assert!(ass.contains("神爱世人"));
        assert!(ass.contains("100%"));
        for line in ass.lines().filter(|l| l.starts_with("Dialogue:")) {
            let prefix_until_text: Vec<&str> = line.splitn(10, ',').collect();
            assert_eq!(
                prefix_until_text.len(),
                10,
                "Dialogue line must have 10 parts (9 comma separators): {line}"
            );
        }
    }
}

#[test]
fn test_ass_subtitles_segment_timing_edge_cases() {
    let segments = vec![
        seg(10000, 15000, "Valid segment"),
        seg(16000, 16000, "Zero duration"),
        seg(17000, 17020, "Micro segment"),
        seg(19000, 18000, "Inverted segment"),
        seg(8000, 12000, "Straddling start"),
        seg(18000, 23000, "Straddling end"),
        seg(0, 5000, "Before clip"),
        seg(25000, 30000, "After clip"),
        seg(13000, 14000, "   \n\r\t  "),
    ];
    let ass = generate_ass_subtitles(&segments, 10000, 20000, 10000, 1080, 1920, "amber")
        .expect("should generate ASS subtitles");
    assert!(!ass.contains("Before clip"));
    assert!(!ass.contains("After clip"));
    assert!(!ass.contains("Zero duration"));
    assert!(!ass.contains("Inverted segment"));
    assert!(!ass.contains("Micro segment"));
    assert!(ass.contains("Straddling start"));
    assert!(ass.contains("Straddling end"));
    assert!(ass.contains("Valid segment"));
}

#[test]
fn clip_frames_by_aspect_ratio() {
    assert_eq!(clip_frame("1:1"), (1080, 1080));
    assert_eq!(clip_frame("16:9"), (1920, 1080));
    assert_eq!(clip_frame("9:16"), (1080, 1920));
    assert_eq!(clip_frame("weird"), (1080, 1920));
}

#[test]
fn clip_bounds_are_validated() {
    assert_eq!(
        clip_ffmpeg_args("in.mp4", 15000, 15000, "9:16", true),
        Err(InvalidClipBounds { start_ms: 15000, end_ms: 15000 })
    );
    assert_eq!(
        clip_ffmpeg_args("in.mp4", 20000, 10000, "9:16", true),
        Err(InvalidClipBounds { start_ms: 20000, end_ms: 10000 })
    );
    assert!(clip_ffmpeg_args("in.mp4", 10000, 15000, "9:16", true).is_ok());
}

#[test]
fn clip_args_for_widescreen_video() {
    let args = clip_ffmpeg_args("in.mp4", 1500, 61750, "16:9", true).unwrap();
    let a: Vec<&str> = args.iter().map(|s| s.as_str()).collect();
    assert_eq!(&a[..11], &["-y", "-threads", "0", "-ss", "1.500", "-i", "in.mp4", "-t", "60.250", "-avoid_negative_ts", "make_zero"]);
    assert_eq!(a[11], "-filter_complex");
    assert_eq!(
        a[12],
        "[0:v]scale=1920:1080:force_original_aspect_ratio=decrease:force_divisible_by=2,pad=1920:1080:(ow-iw)/2:(oh-ih)/2:color=black,setsar=1[v]"
    );
    assert_eq!(&a[13..17], &["-map", "[v]", "-map", "0:a?"]);
    assert_eq!(&a[17..25], &["-c:v", "libx264", "-pix_fmt", "yuv420p", "-crf", "22", "-maxrate", "6000k"]);
    assert_eq!(a.last(), Some(&"192k"));
}

#[test]
fn clip_args_for_audio_only_source() {
    let args = clip_ffmpeg_args("talk.mp3", 0, 45000, "9:16", false).unwrap();
    let a: Vec<&str> = args.iter().map(|s| s.as_str()).collect();
    assert_eq!(
        a[12],
        "color=c=0x080c14:s=1080x1920:d=45.000:r=30,setsar=1[bg];[0:a]asplit[a_wave][a_out];[a_wave]showwaves=s=950x422:mode=cline:colors=0xd4913a:r=30[wave];[bg][wave]overlay=(W-w)/2:(H-h)/2:shortest=1,setsar=1[v]"
    );
    assert_eq!(&a[13..17], &["-map", "[v]", "-map", "[a_out]"]);
    assert_eq!(a.last(), Some(&"-shortest"));
    let square = clip_ffmpeg_args("talk.mp3", 0, 1000, "1:1", false).unwrap();
    assert!(square[12].contains("showwaves=s=950x236"));
}

#[test]
fn youtube_section_plan_and_bounds() {
    let url = "https://www.youtube.com/watch?v=dQw4w9WgXcQ";
    assert_eq!(video_section_plan(url, 15000, 15000), Err(InvalidClipBounds { start_ms: 15000, end_ms: 15000 }));
    assert_eq!(video_section_plan(url, 20000, 15000), Err(InvalidClipBounds { start_ms: 20000, end_ms: 15000 }));
    let (name, args) = video_section_plan(url, 12500, 45250).unwrap();
    assert_eq!(name, "yt_sec_dQw4w9WgXcQ_12_45");
    assert_eq!(args[0], "--download-sections");
    assert_eq!(args[1], "*12.500-45.250");
    assert_eq!(args.len(), 8);
    let (other, _) = video_section_plan("https://vimeo.com/1", 0, 1500).unwrap();
    assert_eq!(other, "yt_sec_clip_0_2");
}

#[test]
fn seconds_with_three_decimals() {
    assert_eq!(secs3_text(0), "0.000");
    assert_eq!(secs3_text(90250), "90.250");
    assert_eq!(secs3_text(5), "0.005");
}
