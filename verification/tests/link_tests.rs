use dabar_core::commands::{input_source, InputSource};
use dabar_core::downloader::{
    extract_gdrive_id, extract_youtube_id, format_yt_dlp_error, is_gdrive_url, kept_output,
    strip_youtube_timestamp, yt_dlp_common_args,
};

#[test]
fn test_extract_youtube_id() {
    assert_eq!(
        extract_youtube_id("dQw4w9WgXcQ"),
        Some("dQw4w9WgXcQ".to_string())
    );
    assert_eq!(
        extract_youtube_id("https://www.youtube.com/watch?v=dQw4w9WgXcQ"),
        Some("dQw4w9WgXcQ".to_string())
    );
    assert_eq!(
        extract_youtube_id("https://youtu.be/dQw4w9WgXcQ"),
        Some("dQw4w9WgXcQ".to_string())
    );
    assert_eq!(
        extract_youtube_id("https://www.youtube.com/embed/dQw4w9WgXcQ"),
        Some("dQw4w9WgXcQ".to_string())
    );
    assert_eq!(
        extract_youtube_id("https://www.youtube.com/shorts/dQw4w9WgXcQ"),
        Some("dQw4w9WgXcQ".to_string())
    );
    assert_eq!(extract_youtube_id("invalid url"), None);
    assert_eq!(extract_youtube_id(""), None);
}

#[test]
fn test_format_yt_dlp_error() {
    let err_private = format_yt_dlp_error("test", "ERROR: Private video");
    assert!(err_private.contains("private"));

    let err_geo = format_yt_dlp_error(
        "test",
        "ERROR: Video not available in your country due to geo restriction",
    );
    assert!(err_geo.contains("geo") || err_geo.contains("failed"));

    let err_invalid = format_yt_dlp_error("test", "ERROR: 'not_a_url' is not a valid URL");
    assert!(err_invalid.contains("not_a_url") || err_invalid.contains("valid"));

    let err_bot = format_yt_dlp_error("test", "ERROR: Sign in to confirm you're not a bot");
    assert!(err_bot.contains("bot"));
}

#[test]
fn test_is_gdrive_url() {
    assert!(is_gdrive_url(
        "https://drive.google.com/file/d/1a2b3c4d5e6f7g8h9i0j/view?usp=sharing"
    ));
    assert!(is_gdrive_url(
        "https://drive.google.com/open?id=1a2b3c4d5e6f7g8h9i0j"
    ));
    assert!(!is_gdrive_url("https://www.youtube.com/watch?v=dQw4w9WgXcQ"));
    assert!(!is_gdrive_url("/path/to/local/file.mp4"));
}

#[test]
fn test_extract_gdrive_id() {
    assert_eq!(
        extract_gdrive_id("https://drive.google.com/file/d/1a2b3c4d5e6f7g8h9i0j/view?usp=sharing"),
        Some("1a2b3c4d5e6f7g8h9i0j".to_string())
    );
    assert_eq!(
        extract_gdrive_id("https://drive.google.com/open?id=1a2b3c4d5e6f7g8h9i0j"),
        Some("1a2b3c4d5e6f7g8h9i0j".to_string())
    );
    assert_eq!(extract_gdrive_id("https://youtube.com"), None);
}

#[test]
fn test_youtube_url_variations_and_timestamp_handling() {
    assert_eq!(
        extract_youtube_id("https://www.youtube.com/watch?v=dQw4w9WgXcQ"),
        Some("dQw4w9WgXcQ".to_string())
    );
    assert_eq!(
        extract_youtube_id("https://www.youtube.com/watch?v=dQw4w9WgXcQ&t=120"),
        Some("dQw4w9WgXcQ".to_string())
    );
    assert_eq!(
        extract_youtube_id("https://www.youtube.com/watch?v=dQw4w9WgXcQ&t=1m30s"),
        Some("dQw4w9WgXcQ".to_string())
    );
    assert_eq!(
        extract_youtube_id("https://youtu.be/dQw4w9WgXcQ?t=45"),
        Some("dQw4w9WgXcQ".to_string())
    );
    assert_eq!(
        extract_youtube_id("https://www.youtube.com/embed/dQw4w9WgXcQ"),
        Some("dQw4w9WgXcQ".to_string())
    );
    assert_eq!(
        extract_youtube_id("https://www.youtube.com/shorts/dQw4w9WgXcQ"),
        Some("dQw4w9WgXcQ".to_string())
    );
    assert_eq!(
        extract_youtube_id("dQw4w9WgXcQ"),
        Some("dQw4w9WgXcQ".to_string())
    );
    assert_eq!(extract_youtube_id("https://vimeo.com/12345678"), None);
    assert_eq!(extract_youtube_id("not-a-url"), None);
}

#[test]
fn strip_timestamp_drops_time_parameter() {
    assert_eq!(
        strip_youtube_timestamp("https://www.youtube.com/watch?v=dQw4w9WgXcQ&t=120"),
        "https://www.youtube.com/watch?v=dQw4w9WgXcQ"
    );
    assert_eq!(
        strip_youtube_timestamp("https://www.youtube.com/watch?v=dQw4w9WgXcQ"),
        "https://www.youtube.com/watch?v=dQw4w9WgXcQ"
    );
}

#[test]
fn common_args_without_extras() {
    let args = yt_dlp_common_args(None, None, false);
    let expected: Vec<String> = [
        "--no-playlist",
        "--no-check-certificates",
        "--no-cache-dir",
        "--geo-bypass",
        "--newline",
        "--socket-timeout",
        "30",
        "--retries",
        "5",
        "--fragment-retries",
        "5",
        "--retry-sleep",
        "2",
    ]
    .iter()
    .map(|s| s.to_string())
    .collect();
    assert_eq!(args, expected);
}

#[test]
fn common_args_with_cookies_browser_and_node() {
    let args = yt_dlp_common_args(
        Some("/tmp/cookies.txt".to_string()),
        Some("  firefox ".to_string()),
        true,
    );
    let tail: Vec<&str> = args[13..].iter().map(|s| s.as_str()).collect();
    assert_eq!(
        tail,
        vec![
            "--cookies",
            "/tmp/cookies.txt",
            "--cookies-from-browser",
            "firefox",
            "--js-runtimes",
            "node"
        ]
    );
    let blank_browser = yt_dlp_common_args(None, Some("   ".to_string()), false);
    assert_eq!(blank_browser.len(), 13);
}

#[test]
fn kept_output_skips_blank_lines() {
    let lines = vec![
        "[download] 10%".to_string(),
        "   ".to_string(),
        "".to_string(),
        "[download] 100%".to_string(),
    ];
    assert_eq!(kept_output(&lines), "[download] 10%\n[download] 100%");
    assert_eq!(kept_output(&[]), "");
}

#[test]
fn input_source_classifies_links_and_files() {
    assert_eq!(
        input_source("https://www.youtube.com/watch?v=dQw4w9WgXcQ"),
        InputSource::YouTube
    );
    assert_eq!(input_source("https://youtu.be/dQw4w9WgXcQ"), InputSource::YouTube);
    assert_eq!(
        input_source("https://drive.google.com/open?id=1a2b3c4d5e6f7g8h9i0j"),
        InputSource::GoogleDrive
    );
    assert_eq!(input_source("/home/me/sermon.mp3"), InputSource::LocalFile);
}
