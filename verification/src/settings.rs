use vstd::prelude::*;
use crate::config::{dirs_home_dir, dirs_video_dir, join_path, path_join_rel, opt_view, or_empty};
use crate::text::{chars_of, same_chars};

verus! {

// ---------------------------------------------------------------------------
// The desktop app's settings, as they are kept in its key/value table.
// ---------------------------------------------------------------------------

/// All user settings of the desktop app.
#[derive(Debug, Clone)]
pub struct AppSettings {
    pub groq_api_key: String,
    pub output_dir: String,
    pub offline_mode: bool,
    /// `tiny` or `base`.
    pub offline_model: String,
    pub custom_vocabulary: String,
    pub transcription_backend: String,
    /// Ollama server URL for local highlight detection (e.g. `http://localhost:11434`).
    pub ollama_url: String,
    /// Ollama model name for highlight detection (e.g. `llama3.2:3b`).
    pub ollama_model: String,
}

/// The transcription backend when none is stored.
pub fn default_backend_name() -> (r: String)
    ensures
        r@ == "groq"@,
{
    "groq".to_owned()
}

/// The Ollama server when none is stored.
pub fn default_ollama_url() -> (r: String)
    ensures
        r@ == "http://localhost:11434"@,
{
    "http://localhost:11434".to_owned()
}

/// The Ollama model when none is stored.
pub fn default_ollama_model() -> (r: String)
    ensures
        r@ == "llama3.2:3b"@,
{
    "llama3.2:3b".to_owned()
}

/// The value stored last under `key` (the table keeps the latest write of each key).
pub open spec fn lookup(pairs: Seq<(Seq<char>, Seq<char>)>, key: Seq<char>) -> Option<Seq<char>>
    decreases pairs.len(),
{
    if pairs.len() == 0 {
        None
    } else if pairs.last().0 == key {
        Some(pairs.last().1)
    } else {
        lookup(pairs.drop_last(), key)
    }
}

pub open spec fn or_default(v: Option<Seq<char>>, d: Seq<char>) -> Seq<char> {
    match v {
        Some(x) => x,
        None => d,
    }
}

/// The settings as values: the eight fields in the order of the struct.
pub open spec fn settings_view(s: AppSettings) -> (
    Seq<char>,
    Seq<char>,
    bool,
    Seq<char>,
    Seq<char>,
    Seq<char>,
    Seq<char>,
    Seq<char>,
) {
    (
        s.groq_api_key@,
        s.output_dir@,
        s.offline_mode,
        s.offline_model@,
        s.custom_vocabulary@,
        s.transcription_backend@,
        s.ollama_url@,
        s.ollama_model@,
    )
}

/// The settings read from the table: each stored value, or its default when it is missing
/// (an empty key, `default_output_dir`, offline mode off unless `true` is stored, the `base`
/// model, no vocabulary, the `groq` backend, the local Ollama server and `llama3.2:3b`).
pub open spec fn settings_of(pairs: Seq<(Seq<char>, Seq<char>)>, default_output_dir: Seq<char>) -> (
    Seq<char>,
    Seq<char>,
    bool,
    Seq<char>,
    Seq<char>,
    Seq<char>,
    Seq<char>,
    Seq<char>,
) {
    (
        or_default(lookup(pairs, "groq_api_key"@), seq![]),
        or_default(lookup(pairs, "output_dir"@), default_output_dir),
        or_default(lookup(pairs, "offline_mode"@), seq![]) == "true"@,
        or_default(lookup(pairs, "offline_model"@), "base"@),
        or_default(lookup(pairs, "custom_vocabulary"@), seq![]),
        or_default(lookup(pairs, "transcription_backend"@), "groq"@),
        or_default(lookup(pairs, "ollama_url"@), "http://localhost:11434"@),
        or_default(lookup(pairs, "ollama_model"@), "llama3.2:3b"@),
    )
}

/// The rows that saving the settings writes, in order.
pub open spec fn pairs_of(s: AppSettings) -> Seq<(Seq<char>, Seq<char>)> {
    seq![
        ("groq_api_key"@, s.groq_api_key@),
        ("output_dir"@, s.output_dir@),
        ("offline_mode"@, if s.offline_mode { "true"@ } else { "false"@ }),
        ("offline_model"@, s.offline_model@),
        ("custom_vocabulary"@, s.custom_vocabulary@),
        ("transcription_backend"@, s.transcription_backend@),
        ("ollama_url"@, s.ollama_url@),
        ("ollama_model"@, s.ollama_model@),
    ]
}

pub open spec fn rows_view(rows: Seq<(String, String)>) -> Seq<(Seq<char>, Seq<char>)> {
    rows.map_values(|r: (String, String)| (r.0@, r.1@))
}

/// The value stored last under `key` among `rows`.
pub fn lookup_setting(rows: &[(String, String)], key: &str) -> (r: Option<String>)
    ensures
        opt_view(r) == lookup(rows_view(rows@), key@),
{
    let k = chars_of(key);
    let mut i: usize = rows.len();
    assert(rows@.take(rows@.len() as int) =~= rows@);
    while i > 0
        invariant
            i <= rows@.len(),
            k@ == key@,
            lookup(rows_view(rows@), key@) == lookup(rows_view(rows@.take(i as int)), key@),
        decreases i,
    {
        let ghost pre = rows_view(rows@.take(i as int));
        assert(pre.drop_last() =~= rows_view(rows@.take(i - 1)));
        assert(pre.last() == (rows@[i - 1].0@, rows@[i - 1].1@));
        if same_chars(&chars_of(rows[i - 1].0.as_str()), &k) {
            return Some(rows[i - 1].1.clone());
        }
        i -= 1;
    }
    None
}

fn setting_or(rows: &[(String, String)], key: &str, default: &str) -> (r: String)
    ensures
        r@ == or_default(lookup(rows_view(rows@), key@), default@),
{
    match lookup_setting(rows, key) {
        Some(v) => v,
        None => default.to_owned(),
    }
}

/// The settings read from the stored rows; `default_output_dir` stands for a missing output
/// directory.
pub fn settings_from_stored(rows: &[(String, String)], default_output_dir: &str) -> (r: AppSettings)
    ensures
        settings_view(r) == settings_of(rows_view(rows@), default_output_dir@),
{
    proof {
        reveal_strlit("");
        assert(""@ =~= Seq::<char>::empty());
    }
    let offline = setting_or(rows, "offline_mode", "");
    let offline_mode = same_chars(&chars_of(offline.as_str()), &chars_of("true"));
    let r = AppSettings {
        groq_api_key: setting_or(rows, "groq_api_key", ""),
        output_dir: setting_or(rows, "output_dir", default_output_dir),
        offline_mode,
        offline_model: setting_or(rows, "offline_model", "base"),
        custom_vocabulary: setting_or(rows, "custom_vocabulary", ""),
        transcription_backend: setting_or(rows, "transcription_backend", "groq"),
        ollama_url: setting_or(rows, "ollama_url", "http://localhost:11434"),
        ollama_model: setting_or(rows, "ollama_model", "llama3.2:3b"),
    };
    r
}

/// The rows that saving `s` writes: one per key, `offline_mode` as `true` or `false`.
pub fn settings_to_rows(s: &AppSettings) -> (r: Vec<(String, String)>)
    ensures
        rows_view(r@) == pairs_of(*s),
{
    let mut r: Vec<(String, String)> = Vec::new();
    r.push(("groq_api_key".to_owned(), s.groq_api_key.clone()));
    r.push(("output_dir".to_owned(), s.output_dir.clone()));
    r.push((
        "offline_mode".to_owned(),
        if s.offline_mode {
            "true".to_owned()
        } else {
            "false".to_owned()
        },
    ));
    r.push(("offline_model".to_owned(), s.offline_model.clone()));
    r.push(("custom_vocabulary".to_owned(), s.custom_vocabulary.clone()));
    r.push(("transcription_backend".to_owned(), s.transcription_backend.clone()));
    r.push(("ollama_url".to_owned(), s.ollama_url.clone()));
    r.push(("ollama_model".to_owned(), s.ollama_model.clone()));
    assert(rows_view(r@) =~= pairs_of(*s));
    r
}

/// Settings that are saved and read back are the settings that were saved, whatever output
/// directory stands in for a missing one.
pub proof fn lemma_settings_roundtrip(s: AppSettings, default_output_dir: Seq<char>)
    ensures
        settings_of(pairs_of(s), default_output_dir) == settings_view(s),
{
    reveal_strlit("groq_api_key");
    reveal_strlit("output_dir");
    reveal_strlit("offline_mode");
    reveal_strlit("offline_model");
    reveal_strlit("custom_vocabulary");
    reveal_strlit("transcription_backend");
    reveal_strlit("ollama_url");
    reveal_strlit("ollama_model");
    reveal_strlit("true");
    reveal_strlit("false");
    let p = pairs_of(s);
    reveal_with_fuel(lookup, 9);
    assert(p.drop_last() =~= p.take(7));
    assert(p.take(7).drop_last() =~= p.take(6));
    assert(p.take(6).drop_last() =~= p.take(5));
    assert(p.take(5).drop_last() =~= p.take(4));
    assert(p.take(4).drop_last() =~= p.take(3));
    assert(p.take(3).drop_last() =~= p.take(2));
    assert(p.take(2).drop_last() =~= p.take(1));
    assert(p.take(1).drop_last() =~= p.take(0));
    assert("false"@ != "true"@) by {
        assert("false"@.len() != "true"@.len());
    }
    assert("groq_api_key"@[0] != "output_dir"@[0]);
    assert("groq_api_key"@[0] != "offline_mode"@[0]);
    assert("groq_api_key"@[0] != "offline_model"@[0]);
    assert("groq_api_key"@[0] != "custom_vocabulary"@[0]);
    assert("groq_api_key"@[0] != "transcription_backend"@[0]);
    assert("groq_api_key"@[0] != "ollama_url"@[0]);
    assert("groq_api_key"@[0] != "ollama_model"@[0]);
    assert("output_dir"@[1] != "offline_mode"@[1]);
    assert("output_dir"@[1] != "offline_model"@[1]);
    assert("output_dir"@[0] != "custom_vocabulary"@[0]);
    assert("output_dir"@[0] != "transcription_backend"@[0]);
    assert("output_dir"@[1] != "ollama_url"@[1]);
    assert("output_dir"@[1] != "ollama_model"@[1]);
    assert("offline_mode"@.len() != "offline_model"@.len());
    assert("offline_mode"@[0] != "custom_vocabulary"@[0]);
    assert("offline_mode"@[0] != "transcription_backend"@[0]);
    assert("offline_mode"@[1] != "ollama_url"@[1]);
    assert("offline_mode"@[1] != "ollama_model"@[1]);
    assert("offline_model"@[0] != "custom_vocabulary"@[0]);
    assert("offline_model"@[0] != "transcription_backend"@[0]);
    assert("offline_model"@[1] != "ollama_url"@[1]);
    assert("offline_model"@[1] != "ollama_model"@[1]);
    assert("custom_vocabulary"@[0] != "transcription_backend"@[0]);
    assert("custom_vocabulary"@[0] != "ollama_url"@[0]);
    assert("custom_vocabulary"@[0] != "ollama_model"@[0]);
    assert("transcription_backend"@[0] != "ollama_url"@[0]);
    assert("transcription_backend"@[0] != "ollama_model"@[0]);
    assert("ollama_url"@[7] != "ollama_model"@[7]);
    assert(lookup(p, "groq_api_key"@) == Some(s.groq_api_key@));
    assert(lookup(p, "output_dir"@) == Some(s.output_dir@));
    assert(lookup(p, "offline_mode"@) == Some(if s.offline_mode { "true"@ } else { "false"@ }));
    assert(lookup(p, "offline_model"@) == Some(s.offline_model@));
    assert(lookup(p, "custom_vocabulary"@) == Some(s.custom_vocabulary@));
    assert(lookup(p, "transcription_backend"@) == Some(s.transcription_backend@));
    assert(lookup(p, "ollama_url"@) == Some(s.ollama_url@));
    assert(lookup(p, "ollama_model"@) == Some(s.ollama_model@));
}

/// Where clips go when no output directory is set: `Dabar` in the video directory given,
/// or else in the home directory (or the empty path).
pub open spec fn default_output_dir_rel(video: Option<Seq<char>>, home: Option<Seq<char>>, r: Seq<char>) -> bool {
    match video {
        Some(v) => path_join_rel(v, "Dabar"@, r),
        None => path_join_rel(or_empty(home), "Dabar"@, r),
    }
}

/// Where clips go when no output directory is set, given the directories the platform
/// reports.
pub fn default_output_dir_from(video: Option<String>, home: Option<String>) -> (r: String)
    ensures
        default_output_dir_rel(opt_view(video), opt_view(home), r@),
{
    proof {
        reveal_strlit("Dabar");
    }
    let base = match video {
        Some(v) => v,
        None => match home {
            Some(h) => h,
            None => String::new(),
        },
    };
    join_path(base.as_str(), "Dabar")
}

/// Where clips go on this machine when no output directory is set.
pub fn default_output_dir() -> (r: String)
    ensures
        crate::text::ends_with_seq(r@, "Dabar"@),
{
    default_output_dir_from(dirs_video_dir(), dirs_home_dir())
}

} // verus!
