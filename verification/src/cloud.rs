use vstd::prelude::*;
use crate::llm::{
    condense_transcript, condense_transcript_to_words, condensed_spec, round_secs, DiscardedCandidate,
    HighlightDetectionReport, HighlightDetectionStatus, SermonAnalysisResult,
};
use crate::models::{segs_view, Chapter, Highlight, TranscriptSegment};
use crate::text::{byte_head, head_bytes, head_on_boundary, chars_of, same_chars, contains, contains_seq, dec, fmt_u64, push_all, push_str, starts_with,
    starts_with_seq, string_of, trim, trim_seq};

verus! {

// ---------------------------------------------------------------------------
// Which cloud model to ask next for a sermon analysis.
// ---------------------------------------------------------------------------

/// The chat services that can analyse a sermon, in the order they are tried.
#[derive(Debug, Clone, Copy, PartialEq, Eq, Structural)]
pub enum LlmProvider {
    Groq,
    OpenAi,
    OpenRouter,
}

pub open spec fn provider_index(p: LlmProvider) -> nat {
    match p {
        LlmProvider::Groq => 0,
        LlmProvider::OpenAi => 1,
        LlmProvider::OpenRouter => 2,
    }
}

pub open spec fn provider_at(i: nat) -> LlmProvider {
    if i == 0 {
        LlmProvider::Groq
    } else if i == 1 {
        LlmProvider::OpenAi
    } else {
        LlmProvider::OpenRouter
    }
}

/// The models of each service, strongest first.
pub open spec fn models_spec(p: LlmProvider) -> Seq<Seq<char>> {
    match p {
        LlmProvider::Groq => seq![
            "openai/gpt-oss-120b"@,
            "openai/gpt-oss-20b"@,
            "qwen/qwen3.8-27b"@,
            "llama-3.3-70b-versatile"@,
            "llama-3.1-8b-instant"@,
        ],
        LlmProvider::OpenAi => seq!["gpt-4o"@, "gpt-4o-mini"@, "o3-mini"@],
        LlmProvider::OpenRouter => seq!["openai/gpt-oss-120b"@, "openai/gpt-oss-20b"@],
    }
}

/// How many models a service offers.
pub fn model_count(p: LlmProvider) -> (r: usize)
    ensures
        r == models_spec(p).len(),
        1 <= r <= 5,
{
    match p {
        LlmProvider::Groq => 5,
        LlmProvider::OpenAi => 3,
        LlmProvider::OpenRouter => 2,
    }
}

/// The name of the `i`-th model of a service.
pub fn model_name(p: LlmProvider, i: usize) -> (r: &'static str)
    requires
        i < models_spec(p).len(),
    ensures
        r@ == models_spec(p)[i as int],
{
    match p {
        LlmProvider::Groq => {
            if i == 0 {
                "openai/gpt-oss-120b"
            } else if i == 1 {
                "openai/gpt-oss-20b"
            } else if i == 2 {
                "qwen/qwen3.8-27b"
            } else if i == 3 {
                "llama-3.3-70b-versatile"
            } else {
                "llama-3.1-8b-instant"
            }
        },
        LlmProvider::OpenAi => {
            if i == 0 {
                "gpt-4o"
            } else if i == 1 {
                "gpt-4o-mini"
            } else {
                "o3-mini"
            }
        },
        LlmProvider::OpenRouter => {
            if i == 0 {
                "openai/gpt-oss-120b"
            } else {
                "openai/gpt-oss-20b"
            }
        },
    }
}

/// The chat-completions endpoint of a service.
pub fn chat_url(p: LlmProvider) -> (r: &'static str)
    ensures
        r@ == match p {
            LlmProvider::Groq => "https://api.groq.com/openai/v1/chat/completions"@,
            LlmProvider::OpenAi => "https://api.openai.com/v1/chat/completions"@,
            LlmProvider::OpenRouter => "https://openrouter.ai/api/v1/chat/completions"@,
        },
{
    match p {
        LlmProvider::Groq => "https://api.groq.com/openai/v1/chat/completions",
        LlmProvider::OpenAi => "https://api.openai.com/v1/chat/completions",
        LlmProvider::OpenRouter => "https://openrouter.ai/api/v1/chat/completions",
    }
}

/// The key to use for each service; `None` where the service is not configured.
#[derive(Debug, Clone)]
pub struct ProviderKeys {
    pub groq: Option<String>,
    pub openai: Option<String>,
    pub openrouter: Option<String>,
}

pub open spec fn key_of(keys: ProviderKeys, p: LlmProvider) -> Option<String> {
    match p {
        LlmProvider::Groq => keys.groq,
        LlmProvider::OpenAi => keys.openai,
        LlmProvider::OpenRouter => keys.openrouter,
    }
}

pub open spec fn sv(o: Option<String>) -> Option<Seq<char>> {
    match o {
        Some(s) => Some(s@),
        None => None,
    }
}

pub open spec fn sv_str(o: Option<&str>) -> Option<Seq<char>> {
    match o {
        Some(s) => Some(s@),
        None => None,
    }
}

/// An environment value, kept when it holds more than whitespace.
pub open spec fn env_fallback(env: Option<Seq<char>>) -> Option<Seq<char>> {
    match env {
        Some(e) => if trim_seq(e).len() > 0 {
            Some(e)
        } else {
            None
        },
        None => None,
    }
}

/// A key given by the user is a Groq key when it starts with `gsk_`, or when it is neither
/// an OpenAI-style `sk-` key nor blank.
pub open spec fn is_groq_key(k: Seq<char>) -> bool {
    starts_with_seq(k, "gsk_"@) || (!starts_with_seq(k, "sk-"@) && trim_seq(k).len() > 0)
}

/// An OpenAI key starts with `sk-` but not with `sk-or-`.
pub open spec fn is_openai_key(k: Seq<char>) -> bool {
    starts_with_seq(k, "sk-"@) && !starts_with_seq(k, "sk-or-"@)
}

/// An OpenRouter key starts with `sk-or-`.
pub open spec fn is_openrouter_key(k: Seq<char>) -> bool {
    starts_with_seq(k, "sk-or-"@)
}

/// The key for a service: the user's key when it is of that service's kind, else the
/// service's environment variable when it is not blank.
pub open spec fn pick_key(given: Option<Seq<char>>, fits: bool, env: Option<Seq<char>>) -> Option<Seq<char>> {
    match given {
        Some(k) => if fits {
            Some(k)
        } else {
            env_fallback(env)
        },
        None => env_fallback(env),
    }
}

fn env_fallback_exec(env: Option<&str>) -> (r: Option<String>)
    ensures
        sv(r) == env_fallback(sv_str(env)),
{
    match env {
        Some(e) => {
            if trim(&chars_of(e)).len() > 0 {
                Some(e.to_owned())
            } else {
                None
            }
        },
        None => None,
    }
}

/// The keys for the three services from the key the user gave and the values of
/// `GROQ_API_KEY`, `OPENAI_API_KEY` and `OPENROUTER_API_KEY`.
pub fn select_provider_keys(
    api_key: Option<&str>,
    groq_env: Option<&str>,
    openai_env: Option<&str>,
    openrouter_env: Option<&str>,
) -> (r: ProviderKeys)
    ensures
        sv(r.groq) == pick_key(
            sv_str(api_key),
            api_key is Some && is_groq_key(api_key.unwrap()@),
            sv_str(groq_env),
        ),
        sv(r.openai) == pick_key(
            sv_str(api_key),
            api_key is Some && is_openai_key(api_key.unwrap()@),
            sv_str(openai_env),
        ),
        sv(r.openrouter) == pick_key(
            sv_str(api_key),
            api_key is Some && is_openrouter_key(api_key.unwrap()@),
            sv_str(openrouter_env),
        ),
{
    let (g, o, r) = match api_key {
        Some(k) => {
            let kc = chars_of(k);
            let gsk = starts_with(&kc, &chars_of("gsk_"));
            let sk = starts_with(&kc, &chars_of("sk-"));
            let skor = starts_with(&kc, &chars_of("sk-or-"));
            let blank = trim(&kc).len() == 0;
            (gsk || (!sk && !blank), sk && !skor, skor)
        },
        None => (false, false, false),
    };
    let groq = if g {
        Some(api_key.unwrap().to_owned())
    } else {
        env_fallback_exec(groq_env)
    };
    let openai = if o {
        Some(api_key.unwrap().to_owned())
    } else {
        env_fallback_exec(openai_env)
    };
    let openrouter = if r {
        Some(api_key.unwrap().to_owned())
    } else {
        env_fallback_exec(openrouter_env)
    };
    ProviderKeys { groq, openai, openrouter }
}

/// A failure that says the request was over the service's token limit.
pub open spec fn token_limit_spec(msg: Seq<char>) -> bool {
    contains_seq(msg, "413"@) || contains_seq(msg, "Request too large"@) || contains_seq(msg, "TPM"@)
}

/// Whether a failure message says the request was over the service's token limit.
pub fn is_token_limit_error(msg: &str) -> (r: bool)
    ensures
        r == token_limit_spec(msg@),
{
    let m = chars_of(msg);
    contains(&m, &chars_of("413")) || contains(&m, &chars_of("Request too large")) || contains(
        &m,
        &chars_of("TPM"),
    )
}

/// One request to make: the service, the index of its model, and whether the transcript
/// is sent in its compact form.
#[derive(Debug, Clone, Copy, PartialEq, Eq, Structural)]
pub struct ChatAttempt {
    pub provider: LlmProvider,
    pub model: usize,
    pub compact: bool,
}

/// What a request gave.
#[derive(Debug, Clone)]
pub enum ChatOutcome {
    /// A usable analysis.
    Analysis,
    /// An answer without usable JSON.
    NoUsableJson,
    /// The request failed with this message.
    Failed(String),
}

/// What to do next.
#[derive(Debug, Clone, Copy, PartialEq, Eq, Structural)]
pub enum AnalysisStep {
    /// Make this request.
    Ask(ChatAttempt),
    /// The last request gave the analysis.
    Done,
    /// No service is left: use the offline heuristics.
    Offline,
}

/// The first service at index `i` or later that has a key.
pub open spec fn first_keyed_from(keys: ProviderKeys, i: nat) -> Option<LlmProvider>
    decreases 3 - i,
{
    if i >= 3 {
        None
    } else if key_of(keys, provider_at(i)) is Some {
        Some(provider_at(i))
    } else {
        first_keyed_from(keys, i + 1)
    }
}

/// Asking the first model of the first keyed service at index `i` or later, or going
/// offline.
pub open spec fn start_from(keys: ProviderKeys, i: nat) -> AnalysisStep {
    match first_keyed_from(keys, i) {
        Some(p) => AnalysisStep::Ask(ChatAttempt { provider: p, model: 0, compact: false }),
        None => AnalysisStep::Offline,
    }
}

/// The step after `a`: done on an analysis; the same Groq model again with the compact
/// transcript when a full-size request went over the token limit; else the next model of
/// the service, or the first model of the next keyed service, or offline.
pub open spec fn next_step_spec(keys: ProviderKeys, a: ChatAttempt, outcome: ChatOutcome) -> AnalysisStep {
    match outcome {
        ChatOutcome::Analysis => AnalysisStep::Done,
        _ => if a.provider == LlmProvider::Groq && !a.compact && (outcome matches ChatOutcome::Failed(
            m,
        ) && token_limit_spec(m@)) {
            AnalysisStep::Ask(ChatAttempt { compact: true, ..a })
        } else if a.model + 1 < models_spec(a.provider).len() {
            AnalysisStep::Ask(ChatAttempt { provider: a.provider, model: (a.model + 1) as usize, compact: false })
        } else {
            start_from(keys, provider_index(a.provider) + 1)
        },
    }
}

/// A request that can be made: its service has a key and the model exists.
pub open spec fn valid_attempt(keys: ProviderKeys, a: ChatAttempt) -> bool {
    &&& key_of(keys, a.provider) is Some
    &&& a.model < models_spec(a.provider).len()
}

/// The place of a request in the order they are made.
pub open spec fn attempt_rank(a: ChatAttempt) -> nat {
    provider_index(a.provider) * 16 + a.model as nat * 2 + if a.compact {
        1nat
    } else {
        0nat
    }
}

proof fn lemma_first_keyed(keys: ProviderKeys, i: nat)
    ensures
        first_keyed_from(keys, i) matches Some(p) ==> provider_index(p) >= i && key_of(keys, p) is Some,
    decreases 3 - i,
{
    if i < 3 && key_of(keys, provider_at(i)) is None {
        lemma_first_keyed(keys, i + 1);
    }
}

fn start_from_exec(keys: &ProviderKeys, i: usize) -> (r: AnalysisStep)
    requires
        i <= 3,
    ensures
        r == start_from(*keys, i as nat),
    decreases 3 - i,
{
    if i >= 3 {
        return AnalysisStep::Offline;
    }
    let (p, has) = if i == 0 {
        (LlmProvider::Groq, keys.groq.is_some())
    } else if i == 1 {
        (LlmProvider::OpenAi, keys.openai.is_some())
    } else {
        (LlmProvider::OpenRouter, keys.openrouter.is_some())
    };
    if has {
        AnalysisStep::Ask(ChatAttempt { provider: p, model: 0, compact: false })
    } else {
        start_from_exec(keys, i + 1)
    }
}

/// The first request of an analysis: the first model of the first service with a key, or
/// offline when no service has one.
pub fn first_step(keys: &ProviderKeys) -> (r: AnalysisStep)
    ensures
        r == start_from(*keys, 0),
        r matches AnalysisStep::Ask(a) ==> valid_attempt(*keys, a),
        r != AnalysisStep::Done,
{
    proof {
        lemma_first_keyed(*keys, 0);
    }
    start_from_exec(keys, 0)
}

/// The step after request `a` gave `outcome`.
pub fn next_step(keys: &ProviderKeys, a: ChatAttempt, outcome: &ChatOutcome) -> (r: AnalysisStep)
    requires
        valid_attempt(*keys, a),
    ensures
        r == next_step_spec(*keys, a, *outcome),
        r matches AnalysisStep::Ask(b) ==> valid_attempt(*keys, b) && attempt_rank(b) > attempt_rank(a),
{
    proof {
        lemma_first_keyed(*keys, provider_index(a.provider) + 1);
    }
    match outcome {
        ChatOutcome::Analysis => AnalysisStep::Done,
        ChatOutcome::NoUsableJson => advance(keys, a),
        ChatOutcome::Failed(m) => {
            let is_groq = match a.provider {
                LlmProvider::Groq => true,
                _ => false,
            };
            if is_groq && !a.compact && is_token_limit_error(m.as_str()) {
                AnalysisStep::Ask(ChatAttempt { provider: a.provider, model: a.model, compact: true })
            } else {
                advance(keys, a)
            }
        },
    }
}

fn advance(keys: &ProviderKeys, a: ChatAttempt) -> (r: AnalysisStep)
    requires
        valid_attempt(*keys, a),
    ensures
        r == (if a.model + 1 < models_spec(a.provider).len() {
            AnalysisStep::Ask(ChatAttempt { provider: a.provider, model: (a.model + 1) as usize, compact: false })
        } else {
            start_from(*keys, provider_index(a.provider) + 1)
        }),
{
    if a.model + 1 < model_count(a.provider) {
        AnalysisStep::Ask(ChatAttempt { provider: a.provider, model: a.model + 1, compact: false })
    } else {
        let i: usize = match a.provider {
            LlmProvider::Groq => 1,
            LlmProvider::OpenAi => 2,
            LlmProvider::OpenRouter => 3,
        };
        start_from_exec(keys, i)
    }
}

/// Every request that the plan makes comes later in the order than the one before it, and
/// there are fewer than 48 places in that order: an analysis makes fewer than 48 requests
/// before it is done or goes offline.
pub proof fn lemma_plan_ends(keys: ProviderKeys, a: ChatAttempt, outcome: ChatOutcome)
    requires
        valid_attempt(keys, a),
    ensures
        attempt_rank(a) < 48,
        next_step_spec(keys, a, outcome) matches AnalysisStep::Ask(b) ==> attempt_rank(b) > attempt_rank(
            a,
        ) && valid_attempt(keys, b),
{
    lemma_first_keyed(keys, provider_index(a.provider) + 1);
}

/// The instructions given to the model, for a sermon `total_ms` long.
pub open spec fn system_prompt_spec(total_ms: nat) -> Seq<char> {
    "You are a pastoral editor. Analyze the timestamped sermon transcript and return JSON:\n{\"chapters\":[{\"title\":\"3-7 word title\",\"summary\":\"section overview\",\"start_timestamp\":0.0,\"end_timestamp\":300.0}],\"clips\":[{\"title\":\"3-7 word title\",\"start_timestamp\":45.0,\"end_timestamp\":345.0,\"reason\":\"why this impacts listeners\",\"suggested_hook_text\":\"key quote\"}]}\nRules: 3-8 chapters spanning the full "@
        + dec(round_secs(total_ms))
        + "s sermon. 3-6 clips with NO upper time limit — a powerful altar call or testimony may run 5-10 minutes, preserve it fully. Minimum 60s per clip. Use exact timestamps from the transcript."@
}

/// The instructions given to the model for a sermon `total_ms` long.
pub fn analysis_system_prompt(total_ms: u64) -> (r: String)
    ensures
        r@ == system_prompt_spec(total_ms as nat),
{
    let s = total_ms / 1000;
    let rem = total_ms % 1000;
    let secs = if rem > 500 || (rem == 500 && s % 2 == 1) {
        s + 1
    } else {
        s
    };
    let mut v = chars_of(
        "You are a pastoral editor. Analyze the timestamped sermon transcript and return JSON:\n{\"chapters\":[{\"title\":\"3-7 word title\",\"summary\":\"section overview\",\"start_timestamp\":0.0,\"end_timestamp\":300.0}],\"clips\":[{\"title\":\"3-7 word title\",\"start_timestamp\":45.0,\"end_timestamp\":345.0,\"reason\":\"why this impacts listeners\",\"suggested_hook_text\":\"key quote\"}]}\nRules: 3-8 chapters spanning the full ",
    );
    push_all(&mut v, &fmt_u64(secs));
    push_str(
        &mut v,
        "s sermon. 3-6 clips with NO upper time limit — a powerful altar call or testimony may run 5-10 minutes, preserve it fully. Minimum 60s per clip. Use exact timestamps from the transcript.",
    );
    string_of(&v)
}

/// The transcript as the model is given it: the condensed transcript, or the compact one of
/// about 700 words after a request went over the token limit.
pub fn analysis_user_prompt(segments: &[TranscriptSegment], compact: bool) -> (r: String)
    ensures
        r@ == "Analyze this sermon transcript:\n\n"@ + condensed_spec(
            segs_view(segments@),
            if compact {
                700nat
            } else {
                1400nat
            },
        ),
{
    let body = if compact {
        condense_transcript_to_words(segments, 700)
    } else {
        condense_transcript(segments)
    };
    let mut v = chars_of("Analyze this sermon transcript:\n\n");
    push_str(&mut v, body.as_str());
    string_of(&v)
}

/// The analysis of a sermon with no segments: nothing found, no highlight proposed.
pub fn empty_analysis() -> (r: SermonAnalysisResult)
    ensures
        r.chapters@.len() == 0,
        r.highlights_report.highlights@.len() == 0,
        r.highlights_report.total_proposed == 0,
        r.highlights_report.total_passed == 0,
        r.highlights_report.discarded@.len() == 0,
        r.highlights_report.status == HighlightDetectionStatus::NoCandidatesProposed,
        r.highlights_report.error_message is None,
{
    SermonAnalysisResult {
        chapters: Vec::new(),
        highlights_report: HighlightDetectionReport {
            highlights: Vec::new(),
            total_proposed: 0,
            total_passed: 0,
            discarded: Vec::new(),
            status: HighlightDetectionStatus::NoCandidatesProposed,
            error_message: None,
        },
    }
}

/// The analysis a model's reply gives: none when it yields neither chapters nor highlights,
/// else these, with how many clips were proposed, kept and turned down, and the status
/// `Success` when some clip was kept, `AllCandidatesFiltered` when none was.
pub fn model_analysis(
    chapters: Vec<Chapter>,
    highlights: Vec<Highlight>,
    discarded: Vec<DiscardedCandidate>,
    total_proposed: usize,
) -> (r: Option<SermonAnalysisResult>)
    ensures
        r is None <==> (chapters@.len() == 0 && highlights@.len() == 0),
        r matches Some(a) ==> {
            &&& a.chapters@ == chapters@
            &&& a.highlights_report.highlights@ == highlights@
            &&& a.highlights_report.discarded@ == discarded@
            &&& a.highlights_report.total_proposed == total_proposed
            &&& a.highlights_report.total_passed == highlights@.len()
            &&& a.highlights_report.status == if highlights@.len() > 0 {
                HighlightDetectionStatus::Success
            } else {
                HighlightDetectionStatus::AllCandidatesFiltered
            }
            &&& a.highlights_report.error_message is None
        },
{
    if chapters.len() == 0 && highlights.len() == 0 {
        return None;
    }
    let total_passed = highlights.len();
    let status = if total_passed > 0 {
        HighlightDetectionStatus::Success
    } else {
        HighlightDetectionStatus::AllCandidatesFiltered
    };
    Some(SermonAnalysisResult {
        chapters,
        highlights_report: HighlightDetectionReport {
            highlights,
            total_proposed,
            total_passed,
            discarded,
            status,
            error_message: None,
        },
    })
}

/// The message of a chat request the service refused: `rate limited: ` for status 429, else
/// `HTTP <status>: `, then the first 200 bytes of the body.
pub open spec fn chat_error_spec(code: u16, status_text: Seq<char>, body: Seq<char>) -> Seq<char> {
    if code == 429 {
        "rate limited: "@ + byte_head(body, 200)
    } else {
        "HTTP "@ + status_text + ": "@ + byte_head(body, 200)
    }
}

/// The message of a chat request the service refused; `status_text` is the HTTP status as it
/// is shown.
pub fn chat_error_message(code: u16, status_text: &str, body: &str) -> (r: String)
    requires
        head_on_boundary(body@, 200),
    ensures
        r@ == chat_error_spec(code, status_text@, body@),
{
    let head = head_bytes(&chars_of(body), 200);
    let mut v = if code == 429 {
        chars_of("rate limited: ")
    } else {
        let mut v = chars_of("HTTP ");
        push_str(&mut v, status_text);
        push_str(&mut v, ": ");
        v
    };
    push_all(&mut v, &head);
    string_of(&v)
}

/// Whether a chat request to `model` carries a sampling temperature: `o3-mini` refuses one.
pub fn takes_temperature(model: &str) -> (r: bool)
    ensures
        r == (model@ != "o3-mini"@),
{
    !same_chars(&chars_of(model), &chars_of("o3-mini"))
}

/// How long one model may take to answer, in seconds, before the next one is asked.
pub const MODEL_TIMEOUT_SECS: u64 = 30;

} // verus!
