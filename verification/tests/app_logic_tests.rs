use dabar_core::cloud::{
    analysis_system_prompt, analysis_user_prompt, chat_error_message, chat_url, empty_analysis,
    first_step, is_token_limit_error, model_count, model_name, next_step, select_provider_keys,
    AnalysisStep, ChatAttempt, ChatOutcome, LlmProvider, ProviderKeys,
};
use dabar_core::commands::{
    export_file_name, initial_title, pick_clip, render_target, render_target_for_id,
    whisper_model_file, RenderTarget,
};
use dabar_core::config::{config_dir_from, data_dir_from, Config};
use dabar_core::db::{database_url_from, status_from_str, status_to_str};
use dabar_core::deps::{
    binary_env_key, eq_ignore_ascii_case, exe_file_name, ffmpeg_download, first_line,
    hardware_info, hardware_info_for, is_low_end_for, get_offline_status, path_with_dir,
    preset_for, ram_gb_of, recommended_ffmpeg_preset, version_flag_for_path,
    version_flag_for_tool, yt_dlp_download, BinaryStatus, DepsStatus, Platform,
};
use dabar_core::llm::HighlightDetectionStatus;
use dabar_core::models::{Chapter, Highlight, SermonStatus, TranscriptSegment};
use dabar_core::settings::{
    default_backend_name, default_ollama_model, default_ollama_url, default_output_dir_from,
    lookup_setting, settings_from_stored, settings_to_rows, AppSettings,
};

fn status(found: bool) -> BinaryStatus {
    BinaryStatus { found, path: None, version: None }
}

#[test]
fn tool_environment_keys_and_names() {
    assert_eq!(binary_env_key("yt-dlp"), "YT_DLP_PATH");
    assert_eq!(binary_env_key("ffmpeg"), "FFMPEG_PATH");
    assert_eq!(exe_file_name("ffmpeg", true), "ffmpeg.exe");
    assert_eq!(exe_file_name("ffmpeg.exe", true), "ffmpeg.exe");
    assert_eq!(exe_file_name("ffmpeg", false), "ffmpeg");
    assert_eq!(version_flag_for_tool("ffprobe"), "-version");
    assert_eq!(version_flag_for_tool("yt-dlp"), "--version");
    assert_eq!(version_flag_for_path("/usr/bin/ffmpeg"), "-version");
    assert_eq!(version_flag_for_path("/usr/bin/ffprobe"), "--version");
    assert_eq!(first_line("  ffmpeg version 6.1  \nbuilt with gcc"), Some("ffmpeg version 6.1".to_string()));
    assert_eq!(first_line(""), None);
}

#[test]
fn offline_status_reads_the_check() {
    let s = DepsStatus { ffmpeg: status(true), yt_dlp: status(false), ffprobe: status(true) };
    let o = get_offline_status(&s);
    assert!(o.ffmpeg_ready);
    assert!(!o.yt_dlp_ready);
}

#[test]
fn path_gets_the_tool_directory_once() {
    assert_eq!(path_with_dir("/usr/bin:/bin", "/opt/dabar/bin", false), Some("/opt/dabar/bin:/usr/bin:/bin".to_string()));
    assert_eq!(path_with_dir("/usr/bin:/opt/dabar/bin", "/opt/dabar/bin", false), None);
    assert_eq!(path_with_dir("C:\\Tools;C:\\DABAR\\BIN", "c:\\dabar\\bin", true), None);
    assert_eq!(path_with_dir("", "/x", false), Some("/x:".to_string()));
    let a: Vec<char> = "Bin".chars().collect();
    let b: Vec<char> = "bIN".chars().collect();
    let c: Vec<char> = "bins".chars().collect();
    assert!(eq_ignore_ascii_case(&a, &b));
    assert!(!eq_ignore_ascii_case(&a, &c));
}

#[test]
fn download_sources_per_platform() {
    assert_eq!(yt_dlp_download(Platform::Windows).0, "yt-dlp.exe");
    assert_eq!(yt_dlp_download(Platform::MacOs).1, "https://github.com/yt-dlp/yt-dlp/releases/latest/download/yt-dlp_macos");
    assert_eq!(ffmpeg_download(Platform::Other).0, "ffmpeg");
    assert!(ffmpeg_download(Platform::Windows).1.ends_with("win64-gpl.zip"));
}

#[test]
fn hardware_rules() {
    assert_eq!(ram_gb_of(8 * 1024 * 1024 * 1024), 8);
    assert_eq!(ram_gb_of(4 * 1024 * 1024 * 1024 - 1), 3);
    assert!(is_low_end_for(4));
    assert!(!is_low_end_for(5));
    assert_eq!(preset_for(true), "ultrafast");
    assert_eq!(preset_for(false), "veryfast");
    let h = hardware_info_for(16);
    assert_eq!((h.ram_gb, h.is_low_end, h.recommended_ffmpeg_preset.as_str()), (16, false, "veryfast"));
    let here = hardware_info();
    assert_eq!(here.is_low_end, here.ram_gb <= 4);
    let p = recommended_ffmpeg_preset();
    assert!(p == "ultrafast" || p == "veryfast");
}

#[test]
fn data_and_config_directories() {
    let d = data_dir_from(Some("/home/a/.local/share".to_string()), Some("/home/a".to_string()));
    assert_eq!(d, "/home/a/.local/share/dabar");
    let d2 = data_dir_from(None, Some("/home/a".to_string()));
    assert_eq!(d2, "/home/a/.local/share/dabar");
    let c = config_dir_from(None, Some("/home/b".to_string()));
    assert_eq!(c, "/home/b/.config/dabar");
    assert!(Config::db_path().ends_with("dabar.db"));
    assert!(Config::models_dir().ends_with("whisper-models"));
    assert!(Config::audio_dir().ends_with("audio"));
    assert!(Config::config_path().ends_with("config.toml"));
}

#[test]
fn config_keys_and_effective_key() {
    let mut c = Config::initial();
    assert_eq!(c.offline_model, "base");
    assert!(c.set("groq-key", "gsk_abc".to_string()).is_ok());
    assert!(c.set("offline-model", "tiny".to_string()).is_ok());
    assert!(c.set("ollama-url", "http://h:1".to_string()).is_ok());
    assert_eq!(c.groq_api_key.as_deref(), Some("gsk_abc"));
    assert_eq!(c.offline_model, "tiny");
    assert_eq!(c.ollama_url.as_deref(), Some("http://h:1"));
    let err = c.set("color", "red".to_string()).unwrap_err();
    assert_eq!(
        err.message(),
        "Unknown config key 'color'. Valid keys: groq-key, output-dir, ollama-url, ollama-model, offline-model"
    );
    assert_eq!(c.effective_groq_key(Some("env".to_string())), Some("gsk_abc".to_string()));
    c.groq_api_key = Some("   ".to_string());
    assert_eq!(c.effective_groq_key(Some("env".to_string())), Some("env".to_string()));
    c.groq_api_key = None;
    assert_eq!(c.effective_groq_key(None), None);
}

fn sample_settings() -> AppSettings {
    AppSettings {
        groq_api_key: "gsk_1".to_string(),
        output_dir: "/videos/Dabar".to_string(),
        offline_mode: true,
        offline_model: "tiny".to_string(),
        custom_vocabulary: "RCCG".to_string(),
        transcription_backend: "deepgram".to_string(),
        ollama_url: "http://localhost:11434".to_string(),
        ollama_model: "llama3.2:3b".to_string(),
    }
}

#[test]
fn settings_read_back_what_was_saved() {
    let s = sample_settings();
    let rows = settings_to_rows(&s);
    assert_eq!(rows.len(), 8);
    assert_eq!(rows[2], ("offline_mode".to_string(), "true".to_string()));
    let back = settings_from_stored(&rows, "/fallback");
    assert_eq!(back.groq_api_key, s.groq_api_key);
    assert_eq!(back.output_dir, s.output_dir);
    assert_eq!(back.offline_mode, s.offline_mode);
    assert_eq!(back.offline_model, s.offline_model);
    assert_eq!(back.custom_vocabulary, s.custom_vocabulary);
    assert_eq!(back.transcription_backend, s.transcription_backend);
    assert_eq!(back.ollama_url, s.ollama_url);
    assert_eq!(back.ollama_model, s.ollama_model);
}

#[test]
fn settings_defaults_when_nothing_is_stored() {
    let s = settings_from_stored(&[], "/home/x/Videos/Dabar");
    assert_eq!(s.groq_api_key, "");
    assert_eq!(s.output_dir, "/home/x/Videos/Dabar");
    assert!(!s.offline_mode);
    assert_eq!(s.offline_model, "base");
    assert_eq!(s.transcription_backend, default_backend_name());
    assert_eq!(s.ollama_url, default_ollama_url());
    assert_eq!(s.ollama_model, default_ollama_model());
    assert_eq!(default_backend_name(), "groq");
    let rows = vec![
        ("offline_mode".to_string(), "yes".to_string()),
        ("offline_model".to_string(), "tiny".to_string()),
        ("offline_model".to_string(), "base".to_string()),
    ];
    let s2 = settings_from_stored(&rows, "/d");
    assert!(!s2.offline_mode);
    assert_eq!(s2.offline_model, "base");
    assert_eq!(lookup_setting(&rows, "offline_model"), Some("base".to_string()));
    assert_eq!(lookup_setting(&rows, "missing"), None);
    assert_eq!(default_output_dir_from(Some("/v".to_string()), None), "/v/Dabar");
    assert_eq!(default_output_dir_from(None, Some("/h".to_string())), "/h/Dabar");
}

#[test]
fn status_words_round_trip() {
    let all = [
        SermonStatus::Queued,
        SermonStatus::Downloading,
        SermonStatus::Transcribing,
        SermonStatus::Detecting,
        SermonStatus::Processing,
        SermonStatus::Ready,
        SermonStatus::Failed,
        SermonStatus::Cancelled,
    ];
    for s in all {
        assert_eq!(status_from_str(status_to_str(&s)), s);
    }
    assert_eq!(status_to_str(&SermonStatus::Ready), "ready");
    assert_eq!(status_from_str("bogus"), SermonStatus::Queued);
}

#[test]
fn cli_command_decisions() {
    assert_eq!(export_file_name("Grace & Truth: Part 1"), "dabar_Grace___Truth__Part_1.mp4");
    let long = "a".repeat(80);
    assert_eq!(export_file_name(&long), format!("dabar_{}.mp4", "a".repeat(50)));
    assert_eq!(whisper_model_file("tiny").0, "ggml-tiny.bin");
    assert_eq!(whisper_model_file("large").0, "ggml-base.bin");
    assert_eq!(pick_clip(2, 3), Ok(1));
    assert_eq!(pick_clip(0, 3), Err("Clip 0 not found. This sermon has 3 highlights.".to_string()));
    assert_eq!(pick_clip(4, 3), Err("Clip 4 not found. This sermon has 3 highlights.".to_string()));
    assert_eq!(initial_title("https://youtu.be/x", None), "Processing…");
    assert_eq!(initial_title("/a/b/sunday.mp3", Some("sunday")), "sunday");
    assert_eq!(initial_title("/a/b/", None), "Sermon");
}

fn hl(id: u128) -> Highlight {
    Highlight {
        id,
        title: "t".to_string(),
        start_ms: 0,
        end_ms: 40_000,
        score_bp: 9000,
        reason: "r".to_string(),
        suggested_hook_text: "h".to_string(),
    }
}

#[test]
fn render_targets() {
    let hs = vec![hl(5), hl(6)];
    let chs = vec![Chapter { id: 9, title: "Intro".to_string(), summary: String::new(), start_ms: 0, end_ms: 60_000 }];
    match render_target_for_id(&hs, &chs, Some(6), None, None) {
        RenderTarget::Highlight(id) => assert_eq!(id, 6),
        other => panic!("unexpected {other:?}"),
    }
    match render_target_for_id(&hs, &chs, Some(9), Some((1, 2)), None) {
        RenderTarget::Range { start_ms, end_ms, title } => {
            assert_eq!((start_ms, end_ms, title.as_deref()), (0, 60_000, Some("Intro")))
        }
        other => panic!("unexpected {other:?}"),
    }
    match render_target_for_id(&hs, &chs, Some(77), Some((1000, 2000)), Some("Clip".to_string())) {
        RenderTarget::Range { start_ms, end_ms, title } => {
            assert_eq!((start_ms, end_ms, title.as_deref()), (1000, 2000, Some("Clip")))
        }
        other => panic!("unexpected {other:?}"),
    }
    match render_target_for_id(&hs, &chs, None, None, None) {
        RenderTarget::Highlight(id) => assert_eq!(id, 5),
        other => panic!("unexpected {other:?}"),
    }
    assert!(matches!(render_target_for_id(&[], &[], None, None, None), RenderTarget::Nothing));
    let uuid_text = "00000000-0000-0000-0000-000000000006";
    match render_target(&hs, &chs, Some(uuid_text), None, None, None) {
        RenderTarget::Highlight(id) => assert_eq!(id, 6),
        other => panic!("unexpected {other:?}"),
    }
    match render_target(&hs, &chs, Some("not-a-uuid"), None, None, None) {
        RenderTarget::Highlight(id) => assert_eq!(id, 5),
        other => panic!("unexpected {other:?}"),
    }
}

#[test]
fn provider_keys_by_kind() {
    let k = select_provider_keys(Some("gsk_123"), None, Some("sk-env"), None);
    assert_eq!(k.groq.as_deref(), Some("gsk_123"));
    assert_eq!(k.openai.as_deref(), Some("sk-env"));
    assert_eq!(k.openrouter, None);
    let k2 = select_provider_keys(Some("sk-or-abc"), Some("  "), None, None);
    assert_eq!(k2.groq, None);
    assert_eq!(k2.openai, None);
    assert_eq!(k2.openrouter.as_deref(), Some("sk-or-abc"));
    let k3 = select_provider_keys(Some("sk-live"), Some("gsk_env"), None, None);
    assert_eq!(k3.groq.as_deref(), Some("gsk_env"));
    assert_eq!(k3.openai.as_deref(), Some("sk-live"));
    assert!(is_token_limit_error("HTTP 413: Request too large"));
    assert!(is_token_limit_error("rate limited: TPM exceeded"));
    assert!(!is_token_limit_error("HTTP 500: boom"));
}

#[test]
fn analysis_plan_walks_models_in_order() {
    let keys = ProviderKeys { groq: Some("g".to_string()), openai: None, openrouter: Some("o".to_string()) };
    let mut step = first_step(&keys);
    let mut asked = Vec::new();
    let mut guard = 0;
    while let AnalysisStep::Ask(a) = step {
        asked.push((a.provider, model_name(a.provider, a.model), a.compact));
        let outcome = if a.provider == LlmProvider::Groq && a.model == 0 && !a.compact {
            ChatOutcome::Failed("HTTP 413: Request too large".to_string())
        } else {
            ChatOutcome::NoUsableJson
        };
        step = next_step(&keys, a, &outcome);
        guard += 1;
        assert!(guard < 48);
    }
    assert_eq!(step, AnalysisStep::Offline);
    assert_eq!(asked.len(), 1 + model_count(LlmProvider::Groq) + model_count(LlmProvider::OpenRouter));
    assert_eq!(asked[0], (LlmProvider::Groq, "openai/gpt-oss-120b", false));
    assert_eq!(asked[1], (LlmProvider::Groq, "openai/gpt-oss-120b", true));
    assert_eq!(asked[2], (LlmProvider::Groq, "openai/gpt-oss-20b", false));
    assert_eq!(asked[6].0, LlmProvider::OpenRouter);
    let done = next_step(&keys, ChatAttempt { provider: LlmProvider::OpenRouter, model: 1, compact: false }, &ChatOutcome::Analysis);
    assert_eq!(done, AnalysisStep::Done);
    let none = ProviderKeys { groq: None, openai: None, openrouter: None };
    assert_eq!(first_step(&none), AnalysisStep::Offline);
    assert_eq!(chat_url(LlmProvider::OpenAi), "https://api.openai.com/v1/chat/completions");
}

#[test]
fn analysis_prompts() {
    let sys = analysis_system_prompt(2_700_500);
    assert!(sys.contains("spanning the full 2700s sermon"));
    assert!(analysis_system_prompt(1_500).contains("full 2s sermon"));
    assert!(sys.starts_with("You are a pastoral editor."));
    let segs = vec![TranscriptSegment { start_ms: 0, end_ms: 1000, text: "Hello church".to_string() }];
    assert_eq!(analysis_user_prompt(&segs, false), "Analyze this sermon transcript:\n\n[00:00:00] Hello church");
    assert_eq!(analysis_user_prompt(&segs, true), "Analyze this sermon transcript:\n\n[00:00:00] Hello church");
    let e = empty_analysis();
    assert_eq!(e.highlights_report.status, HighlightDetectionStatus::NoCandidatesProposed);
    assert_eq!(chat_error_message(429, "429 Too Many Requests", "slow down"), "rate limited: slow down");
    assert_eq!(chat_error_message(500, "500 Internal Server Error", &"y".repeat(250)), format!("HTTP 500 Internal Server Error: {}", "y".repeat(200)));
}

#[test]
fn server_database_url() {
    assert_eq!(database_url_from(None, false), "sqlite://dabar.sqlite3?mode=rwc");
    assert_eq!(database_url_from(None, true), "sqlite://../../dabar.sqlite3?mode=rwc");
    assert_eq!(database_url_from(Some("sqlite:data.db".to_string()), true), "sqlite:data.db?mode=rwc");
    assert_eq!(database_url_from(Some("sqlite:dabar.sqlite3".to_string()), true), "sqlite:../../dabar.sqlite3?mode=rwc");
    assert_eq!(
        database_url_from(Some("postgres://u@h/db".to_string()), true),
        "postgres://u@h/db"
    );
}

#[test]
fn only_o3_mini_goes_without_temperature() {
    assert!(!dabar_core::cloud::takes_temperature("o3-mini"));
    assert!(dabar_core::cloud::takes_temperature("gpt-4o-mini"));
    assert!(dabar_core::cloud::takes_temperature("openai/gpt-oss-120b"));
    assert_eq!(dabar_core::cloud::MODEL_TIMEOUT_SECS, 30);
}

#[test]
fn render_request_reads_every_uuid_form() {
    let big: u128 = 0x550e8400_e29b_41d4_a716_446655440000;
    let hs = vec![hl(5), hl(big)];
    for text in [
        "550e8400e29b41d4a716446655440000",
        "550E8400-E29B-41D4-A716-446655440000",
        "{550e8400-e29b-41d4-a716-446655440000}",
        "URN:uuid:550e8400-e29b-41d4-a716-446655440000",
    ] {
        match render_target(&hs, &[], Some(text), None, None, None) {
            RenderTarget::Highlight(id) => assert_eq!(id, big, "{text}"),
            other => panic!("unexpected {other:?} for {text}"),
        }
    }
    for text in ["550e8400-e29b-41d4-a716-44665544000g", "{550e8400e29b41d4a716446655440000}", "urn:uuid:550e8400e29b41d4a716446655440000"] {
        match render_target(&hs, &[], Some(text), None, None, None) {
            RenderTarget::Highlight(id) => assert_eq!(id, 5, "{text}"),
            other => panic!("unexpected {other:?} for {text}"),
        }
    }
}

#[test]
fn model_reply_becomes_an_analysis() {
    assert!(dabar_core::cloud::model_analysis(vec![], vec![], vec![], 3).is_none());
    let a = dabar_core::cloud::model_analysis(vec![], vec![hl(1)], vec![], 2).expect("an analysis");
    assert_eq!(a.highlights_report.total_passed, 1);
    assert_eq!(a.highlights_report.total_proposed, 2);
    assert_eq!(a.highlights_report.status, HighlightDetectionStatus::Success);
    let chs = vec![Chapter { id: 9, title: "Intro".to_string(), summary: String::new(), start_ms: 0, end_ms: 60_000 }];
    let b = dabar_core::cloud::model_analysis(chs, vec![], vec![], 4).expect("an analysis");
    assert_eq!(b.highlights_report.status, HighlightDetectionStatus::AllCandidatesFiltered);
}
