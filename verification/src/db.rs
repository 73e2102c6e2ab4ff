use vstd::prelude::*;
use crate::models::SermonStatus;
use crate::text::{
    chars_of, contains, contains_seq, push_str, replace, replace_seq, same_chars, starts_with,
    starts_with_seq, string_of,
};

verus! {

// ---------------------------------------------------------------------------
// How the database stores what it is given.
// ---------------------------------------------------------------------------

/// One row of the sermon list.
#[derive(Debug, Clone)]
pub struct SermonSummary {
    pub id: String,
    pub title: String,
    pub status: String,
    pub created_at: String,
    pub audio_path: Option<String>,
}

/// The word a status is stored as.
pub open spec fn status_word(s: SermonStatus) -> Seq<char> {
    match s {
        SermonStatus::Queued => "queued"@,
        SermonStatus::Downloading => "downloading"@,
        SermonStatus::Transcribing => "transcribing"@,
        SermonStatus::Detecting => "detecting"@,
        SermonStatus::Processing => "processing"@,
        SermonStatus::Ready => "ready"@,
        SermonStatus::Failed => "failed"@,
        SermonStatus::Cancelled => "cancelled"@,
    }
}

/// The status a stored word stands for; a word that names no status reads as `Queued`.
pub open spec fn status_of_word(w: Seq<char>) -> SermonStatus {
    if w == "downloading"@ {
        SermonStatus::Downloading
    } else if w == "transcribing"@ {
        SermonStatus::Transcribing
    } else if w == "detecting"@ {
        SermonStatus::Detecting
    } else if w == "processing"@ {
        SermonStatus::Processing
    } else if w == "ready"@ {
        SermonStatus::Ready
    } else if w == "failed"@ {
        SermonStatus::Failed
    } else if w == "cancelled"@ {
        SermonStatus::Cancelled
    } else {
        SermonStatus::Queued
    }
}

/// The word `status` is stored as.
pub fn status_to_str(status: &SermonStatus) -> (r: &'static str)
    ensures
        r@ == status_word(*status),
{
    match status {
        SermonStatus::Queued => "queued",
        SermonStatus::Downloading => "downloading",
        SermonStatus::Transcribing => "transcribing",
        SermonStatus::Detecting => "detecting",
        SermonStatus::Processing => "processing",
        SermonStatus::Ready => "ready",
        SermonStatus::Failed => "failed",
        SermonStatus::Cancelled => "cancelled",
    }
}

/// The status a stored word stands for (`Queued` for a word it does not know).
pub fn status_from_str(status: &str) -> (r: SermonStatus)
    ensures
        r == status_of_word(status@),
{
    let s = chars_of(status);
    if same_chars(&s, &chars_of("downloading")) {
        SermonStatus::Downloading
    } else if same_chars(&s, &chars_of("transcribing")) {
        SermonStatus::Transcribing
    } else if same_chars(&s, &chars_of("detecting")) {
        SermonStatus::Detecting
    } else if same_chars(&s, &chars_of("processing")) {
        SermonStatus::Processing
    } else if same_chars(&s, &chars_of("ready")) {
        SermonStatus::Ready
    } else if same_chars(&s, &chars_of("failed")) {
        SermonStatus::Failed
    } else if same_chars(&s, &chars_of("cancelled")) {
        SermonStatus::Cancelled
    } else {
        SermonStatus::Queued
    }
}

/// A status that is stored and read back is the status that was stored.
pub proof fn lemma_status_roundtrip(s: SermonStatus)
    ensures
        status_of_word(status_word(s)) == s,
{
    reveal_strlit("queued");
    reveal_strlit("downloading");
    reveal_strlit("transcribing");
    reveal_strlit("detecting");
    reveal_strlit("processing");
    reveal_strlit("ready");
    reveal_strlit("failed");
    reveal_strlit("cancelled");
    assert("queued"@.len() == 6 && "downloading"@.len() == 11 && "transcribing"@.len() == 12);
    assert("detecting"@.len() == 9 && "processing"@.len() == 10 && "ready"@.len() == 5);
    assert("failed"@.len() == 6 && "cancelled"@.len() == 9);
    assert("queued"@[0] != "failed"@[0]);
    assert("detecting"@[0] != "cancelled"@[0]);
}

/// Two statuses are stored as the same word only when they are the same status.
pub proof fn lemma_status_words_distinct(a: SermonStatus, b: SermonStatus)
    ensures
        status_word(a) == status_word(b) ==> a == b,
{
    lemma_status_roundtrip(a);
    lemma_status_roundtrip(b);
}

/// The database a server connects to: `DATABASE_URL` when set, else the local
/// `dabar.sqlite3`. A SQLite URL without options gets `?mode=rwc` (create when missing), and
/// the default local file is taken from the workspace root when the server runs two levels
/// below it.
pub open spec fn database_url_spec(env_url: Option<Seq<char>>, root_two_up: bool) -> Seq<char> {
    let url = match env_url {
        Some(u) => u,
        None => "sqlite://dabar.sqlite3?mode=rwc"@,
    };
    if starts_with_seq(url, "sqlite:"@) {
        let f = if !contains_seq(url, "?"@) {
            url + "?mode=rwc"@
        } else {
            url
        };
        if (starts_with_seq(f, "sqlite://dabar.sqlite3"@) || starts_with_seq(f, "sqlite:dabar.sqlite3"@))
            && root_two_up {
            replace_seq(f, "dabar.sqlite3"@, "../../dabar.sqlite3"@)
        } else {
            f
        }
    } else {
        url
    }
}

/// The database URL from the value of `DATABASE_URL` and whether `../../Cargo.toml` exists.
pub fn database_url_from(env_url: Option<String>, root_two_up: bool) -> (r: String)
    ensures
        r@ == database_url_spec(
            match env_url {
                Some(u) => Some(u@),
                None => None,
            },
            root_two_up,
        ),
{
    let url = match env_url {
        Some(u) => chars_of(u.as_str()),
        None => chars_of("sqlite://dabar.sqlite3?mode=rwc"),
    };
    if starts_with(&url, &chars_of("sqlite:")) {
        let f = if !contains(&url, &chars_of("?")) {
            let mut v = url;
            push_str(&mut v, "?mode=rwc");
            v
        } else {
            url
        };
        if (starts_with(&f, &chars_of("sqlite://dabar.sqlite3")) || starts_with(&f, &chars_of("sqlite:dabar.sqlite3")))
            && root_two_up {
            let pat = chars_of("dabar.sqlite3");
            proof {
                reveal_strlit("dabar.sqlite3");
            }
            string_of(&replace(&f, &pat, &chars_of("../../dabar.sqlite3")))
        } else {
            string_of(&f)
        }
    } else {
        string_of(&url)
    }
}

} // verus!
