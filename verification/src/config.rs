use vstd::prelude::*;
use crate::text::{chars_of, ends_with_seq, starts_with_seq, string_of, trim, trim_seq};

verus! {

// ---------------------------------------------------------------------------
// Paths, as std joins them.
// ---------------------------------------------------------------------------

/// A single relative path component that names an entry: not empty, not `.` or `..`, and
/// free of `/`, `\` and `:`.
pub open spec fn plain_component(p: Seq<char>) -> bool {
    &&& p.len() > 0
    &&& !(p.len() <= 2 && forall|i: int| 0 <= i < p.len() ==> p[i] == '.')
    &&& forall|i: int| 0 <= i < p.len() ==> (#[trigger] p[i]) != '/' && p[i] != '\\' && p[i] != ':'
}

/// `base` with `part` appended: directly, or after one `/` or `\` separator.
pub open spec fn joined(base: Seq<char>, part: Seq<char>, r: Seq<char>) -> bool {
    r == base + part || r == base.push('/') + part || r == base.push('\\') + part
}

/// What `Path::join` gives for a plain component: it ends with the component, and unless the
/// base is a Windows verbatim path (`\\?\...`, which std normalises) it is the base with the
/// component appended.
pub open spec fn path_join_rel(base: Seq<char>, part: Seq<char>, r: Seq<char>) -> bool {
    &&& ends_with_seq(r, part)
    &&& !starts_with_seq(base, "\\\\?\\"@) ==> joined(base, part, r)
}

/// Calls `Path::join` with a plain component. std documents that a relative path is
/// appended to the base, with a separator where one is needed; the separator depends on the
/// platform, and on a verbatim base std normalises the path first (dropping `.` and resolving
/// `..`, which a plain component never is), so only the relation `path_join_rel` is claimed.
#[verifier::external_body]
pub(crate) fn join_path(base: &str, part: &str) -> (r: String)
    requires
        plain_component(part@),
    ensures
        path_join_rel(base@, part@, r@),
{
    std::path::Path::new(base).join(part).to_string_lossy().into_owned()
}

/// Calls `dirs::data_dir`: the user's data directory, if the platform has one. Nothing is
/// claimed of it: it depends on the machine and the environment.
#[verifier::external_body]
fn dirs_data_dir() -> (r: Option<String>) {
    dirs::data_dir().map(|p| p.to_string_lossy().into_owned())
}

/// Calls `dirs::config_dir`: the user's configuration directory, if the platform has one.
/// Nothing is claimed of it.
#[verifier::external_body]
fn dirs_config_dir() -> (r: Option<String>) {
    dirs::config_dir().map(|p| p.to_string_lossy().into_owned())
}

/// Calls `dirs::home_dir`: the user's home directory, if it is known. Nothing is claimed of
/// it.
#[verifier::external_body]
pub(crate) fn dirs_home_dir() -> (r: Option<String>) {
    dirs::home_dir().map(|p| p.to_string_lossy().into_owned())
}

/// Calls `dirs::video_dir`: the user's video directory, if the platform has one. Nothing is
/// claimed of it.
#[verifier::external_body]
pub(crate) fn dirs_video_dir() -> (r: Option<String>) {
    dirs::video_dir().map(|p| p.to_string_lossy().into_owned())
}

/// The text of an optional path, empty when there is none.
pub open spec fn or_empty(p: Option<Seq<char>>) -> Seq<char> {
    match p {
        Some(x) => x,
        None => seq![],
    }
}

fn or_empty_exec(p: Option<String>) -> (r: String)
    ensures
        r@ == or_empty(match p {
            Some(x) => Some(x@),
            None => None,
        }),
{
    match p {
        Some(x) => x,
        None => String::new(),
    }
}

pub open spec fn opt_view(p: Option<String>) -> Option<Seq<char>> {
    match p {
        Some(x) => Some(x@),
        None => None,
    }
}

/// A directory below the system one when there is one, else below `home` joined with
/// `fallback_a` and `fallback_b`, then joined with `leaf`.
pub open spec fn dir_under(
    system: Option<Seq<char>>,
    home: Option<Seq<char>>,
    fallback_a: Seq<char>,
    fallback_b: Option<Seq<char>>,
    leaf: Seq<char>,
    r: Seq<char>,
) -> bool {
    match system {
        Some(d) => path_join_rel(d, leaf, r),
        None => exists|a: Seq<char>, b: Seq<char>|
            {
                &&& path_join_rel(or_empty(home), fallback_a, a)
                &&& match fallback_b {
                    Some(f) => path_join_rel(a, f, b),
                    None => b == a,
                }
                &&& path_join_rel(b, leaf, r)
            },
    }
}

/// The application's data directory given what the platform reports: the data directory
/// joined with `dabar`, or, without one, `<home>/.local/share/dabar`.
pub fn data_dir_from(data: Option<String>, home: Option<String>) -> (r: String)
    ensures
        dir_under(opt_view(data), opt_view(home), ".local"@, Some("share"@), "dabar"@, r@),
{
    proof {
        reveal_strlit(".local");
        reveal_strlit("share");
        reveal_strlit("dabar");
    }
    let ghost hv = opt_view(home);
    match data {
        Some(d) => join_path(d.as_str(), "dabar"),
        None => {
            let h = or_empty_exec(home);
            let a = join_path(h.as_str(), ".local");
            let b = join_path(a.as_str(), "share");
            let r = join_path(b.as_str(), "dabar");
            assert(path_join_rel(or_empty(hv), ".local"@, a@));
            r
        },
    }
}

/// The configuration directory given what the platform reports: the configuration directory
/// joined with `dabar`, or, without one, `<home>/.config/dabar`.
pub fn config_dir_from(config: Option<String>, home: Option<String>) -> (r: String)
    ensures
        dir_under(opt_view(config), opt_view(home), ".config"@, None, "dabar"@, r@),
{
    proof {
        reveal_strlit(".config");
        reveal_strlit("dabar");
    }
    let ghost hv = opt_view(home);
    match config {
        Some(d) => join_path(d.as_str(), "dabar"),
        None => {
            let h = or_empty_exec(home);
            let a = join_path(h.as_str(), ".config");
            let r = join_path(a.as_str(), "dabar");
            assert(path_join_rel(or_empty(hv), ".config"@, a@));
            r
        },
    }
}

// ---------------------------------------------------------------------------
// The command-line configuration.
// ---------------------------------------------------------------------------

/// The settings of the command-line tool.
#[derive(Debug, Clone)]
pub struct Config {
    pub groq_api_key: Option<String>,
    pub output_dir: Option<String>,
    pub offline_mode: bool,
    /// `tiny` or `base`.
    pub offline_model: String,
    pub ollama_url: Option<String>,
    pub ollama_model: Option<String>,
    pub custom_vocabulary: Option<String>,
}

impl Default for Config {
    fn default() -> (r: Self)
        ensures
            r.groq_api_key is None,
            r.output_dir is None,
            !r.offline_mode,
            r.offline_model@ == Seq::<char>::empty(),
            r.ollama_url is None,
            r.ollama_model is None,
            r.custom_vocabulary is None,
    {
        Config {
            groq_api_key: None,
            output_dir: None,
            offline_mode: false,
            offline_model: String::new(),
            ollama_url: None,
            ollama_model: None,
            custom_vocabulary: None,
        }
    }
}

/// What `Config::set` did: the key it was given is not one it knows.
#[derive(Debug, Clone)]
pub struct UnknownConfigKey {
    pub key: String,
}

impl UnknownConfigKey {
    /// The message shown for the unknown key.
    pub fn message(&self) -> (r: String)
        ensures
            r@ == "Unknown config key '"@ + self.key@
                + "'. Valid keys: groq-key, output-dir, ollama-url, ollama-model, offline-model"@,
    {
        let mut v = chars_of("Unknown config key '");
        crate::text::push_str(&mut v, self.key.as_str());
        crate::text::push_str(
            &mut v,
            "'. Valid keys: groq-key, output-dir, ollama-url, ollama-model, offline-model",
        );
        string_of(&v)
    }
}

/// `configured` when it holds more than whitespace, else the value of the environment.
pub open spec fn effective_key_spec(configured: Option<Seq<char>>, env: Option<Seq<char>>) -> Option<Seq<char>> {
    match configured {
        Some(k) => if trim_seq(k).len() > 0 {
            Some(k)
        } else {
            env
        },
        None => env,
    }
}

impl Config {
    /// The configuration of a first run, when no file has been saved: the `base` offline model
    /// and nothing else set.
    pub fn initial() -> (r: Self)
        ensures
            r.groq_api_key is None,
            r.output_dir is None,
            !r.offline_mode,
            r.offline_model@ == "base"@,
            r.ollama_url is None,
            r.ollama_model is None,
            r.custom_vocabulary is None,
    {
        let mut c = Config::default();
        c.offline_model = "base".to_owned();
        c
    }

    /// The directory that holds `config.toml`.
    pub fn config_dir() -> (r: String)
        ensures
            ends_with_seq(r@, "dabar"@),
    {
        config_dir_from(dirs_config_dir(), dirs_home_dir())
    }

    /// The path of the configuration file: `config.toml` in the configuration directory.
    pub fn config_path() -> (r: String)
        ensures
            exists|d: Seq<char>| ends_with_seq(d, "dabar"@) && path_join_rel(d, "config.toml"@, r@),
    {
        proof {
            reveal_strlit("config.toml");
        }
        let d = Self::config_dir();
        join_path(d.as_str(), "config.toml")
    }

    /// The application's data directory.
    pub fn data_dir() -> (r: String)
        ensures
            ends_with_seq(r@, "dabar"@),
    {
        data_dir_from(dirs_data_dir(), dirs_home_dir())
    }

    /// The path of the database: `dabar.db` in the data directory.
    pub fn db_path() -> (r: String)
        ensures
            exists|d: Seq<char>| ends_with_seq(d, "dabar"@) && path_join_rel(d, "dabar.db"@, r@),
    {
        proof {
            reveal_strlit("dabar.db");
        }
        let d = Self::data_dir();
        join_path(d.as_str(), "dabar.db")
    }

    /// Where downloaded audio is kept: `audio` in the data directory.
    pub fn audio_dir() -> (r: String)
        ensures
            exists|d: Seq<char>| ends_with_seq(d, "dabar"@) && path_join_rel(d, "audio"@, r@),
    {
        proof {
            reveal_strlit("audio");
        }
        let d = Self::data_dir();
        join_path(d.as_str(), "audio")
    }

    /// Where Whisper models are kept: `whisper-models` in the data directory.
    pub fn models_dir() -> (r: String)
        ensures
            exists|d: Seq<char>| ends_with_seq(d, "dabar"@) && path_join_rel(d, "whisper-models"@, r@),
    {
        proof {
            reveal_strlit("whisper-models");
        }
        let d = Self::data_dir();
        join_path(d.as_str(), "whisper-models")
    }

    /// The Groq key to use: the configured one unless it is blank, else `env_value`, the value
    /// of `GROQ_API_KEY` in the environment.
    pub fn effective_groq_key(&self, env_value: Option<String>) -> (r: Option<String>)
        ensures
            opt_view(r) == effective_key_spec(opt_view(self.groq_api_key), opt_view(env_value)),
    {
        match &self.groq_api_key {
            Some(k) => {
                if trim(&chars_of(k.as_str())).len() > 0 {
                    Some(k.clone())
                } else {
                    env_value
                }
            },
            None => env_value,
        }
    }

    /// Sets one key by its command-line name: `groq-key`, `output-dir`, `ollama-url`,
    /// `ollama-model` or `offline-model`. Any other key leaves the configuration as it was.
    pub fn set(&mut self, key: &str, value: String) -> (r: Result<(), UnknownConfigKey>)
        ensures
            key@ == "groq-key"@ ==> r is Ok && *final(self) == (Config {
                groq_api_key: Some(value),
                ..*old(self)
            }),
            key@ == "output-dir"@ ==> r is Ok && *final(self) == (Config {
                output_dir: Some(value),
                ..*old(self)
            }),
            key@ == "ollama-url"@ ==> r is Ok && *final(self) == (Config {
                ollama_url: Some(value),
                ..*old(self)
            }),
            key@ == "ollama-model"@ ==> r is Ok && *final(self) == (Config {
                ollama_model: Some(value),
                ..*old(self)
            }),
            key@ == "offline-model"@ ==> r is Ok && *final(self) == (Config {
                offline_model: value,
                ..*old(self)
            }),
            !(key@ == "groq-key"@ || key@ == "output-dir"@ || key@ == "ollama-url"@ || key@
                == "ollama-model"@ || key@ == "offline-model"@) ==> (r matches Err(e) && e.key@ == key@)
                && *final(self) == *old(self),
    {
        proof {
            reveal_strlit("groq-key");
            reveal_strlit("output-dir");
            reveal_strlit("ollama-url");
            reveal_strlit("ollama-model");
            reveal_strlit("offline-model");
            assert("output-dir"@[0] != "groq-key"@[0]);
            assert("ollama-url"@[0] != "groq-key"@[0]);
            assert("ollama-url"@[1] != "output-dir"@[1]);
            assert("ollama-model"@[0] != "groq-key"@[0]);
            assert("ollama-model"@[1] != "output-dir"@[1]);
            assert("ollama-model"@[7] != "ollama-url"@[7]);
        }
        let k = chars_of(key);
        if crate::text::same_chars(&k, &chars_of("groq-key")) {
            self.groq_api_key = Some(value);
            Ok(())
        } else if crate::text::same_chars(&k, &chars_of("output-dir")) {
            self.output_dir = Some(value);
            Ok(())
        } else if crate::text::same_chars(&k, &chars_of("ollama-url")) {
            self.ollama_url = Some(value);
            Ok(())
        } else if crate::text::same_chars(&k, &chars_of("ollama-model")) {
            self.ollama_model = Some(value);
            Ok(())
        } else if crate::text::same_chars(&k, &chars_of("offline-model")) {
            self.offline_model = value;
            Ok(())
        } else {
            Err(UnknownConfigKey { key: key.to_owned() })
        }
    }
}

} // verus!
