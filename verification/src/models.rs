use vstd::prelude::*;

verus! {

/// One timed piece of a transcript. Times are milliseconds from the start of the recording.
#[derive(Debug, Clone)]
pub struct TranscriptSegment {
    pub start_ms: u64,
    pub end_ms: u64,
    pub text: String,
}

/// A scripture reference detected in the transcript (e.g. `John 3:16`).
#[derive(Debug, Clone)]
pub struct ScriptureRef {
    pub book: String,
    pub reference: String,
    pub timestamp_ms: u64,
}

/// A natural paragraph of consecutive transcript segments.
#[derive(Debug, Clone)]
pub struct Paragraph {
    pub start_ms: u64,
    pub end_ms: u64,
    pub text: String,
    pub segments: Vec<TranscriptSegment>,
    pub scripture_refs: Vec<ScriptureRef>,
}

/// A collapsible sermon section made of paragraphs.
#[derive(Debug, Clone)]
pub struct Section {
    pub title: String,
    pub start_ms: u64,
    pub end_ms: u64,
    pub paragraphs: Vec<Paragraph>,
}

/// A transcript grouped into sections and paragraphs, with every scripture reference found.
#[derive(Debug, Clone)]
pub struct StructuredTranscript {
    pub sections: Vec<Section>,
    pub scripture_references: Vec<ScriptureRef>,
}

/// A chapter of a sermon; `id` holds the 128 bits of its UUID.
#[derive(Debug, Clone)]
pub struct Chapter {
    pub id: u128,
    pub title: String,
    pub summary: String,
    pub start_ms: u64,
    pub end_ms: u64,
}

/// A highlight clip; `score_bp` is the score in basis points (10000 is a score of 1.0).
#[derive(Debug, Clone)]
pub struct Highlight {
    pub id: u128,
    pub title: String,
    pub start_ms: u64,
    pub end_ms: u64,
    pub score_bp: u64,
    pub reason: String,
    pub suggested_hook_text: String,
}

/// Where a sermon is in the processing pipeline.
#[derive(Debug, Clone, Copy, PartialEq, Eq, Structural)]
pub enum SermonStatus {
    Queued,
    Downloading,
    Transcribing,
    Detecting,
    Processing,
    Ready,
    Failed,
    Cancelled,
}

// ---------------------------------------------------------------------------
// Value views of the records, used by the contracts.
// ---------------------------------------------------------------------------

/// (start, end, text) of a segment.
pub open spec fn seg_view(s: TranscriptSegment) -> (nat, nat, Seq<char>) {
    (s.start_ms as nat, s.end_ms as nat, s.text@)
}

pub open spec fn segs_view(s: Seq<TranscriptSegment>) -> Seq<(nat, nat, Seq<char>)> {
    s.map_values(|x: TranscriptSegment| seg_view(x))
}

/// (book, reference, timestamp) of a scripture reference.
pub open spec fn ref_view(r: ScriptureRef) -> (Seq<char>, Seq<char>, nat) {
    (r.book@, r.reference@, r.timestamp_ms as nat)
}

pub open spec fn refs_view(s: Seq<ScriptureRef>) -> Seq<(Seq<char>, Seq<char>, nat)> {
    s.map_values(|x: ScriptureRef| ref_view(x))
}

impl TranscriptSegment {
    /// A copy of this segment.
    pub fn copied(&self) -> (r: Self)
        ensures
            r == *self,
    {
        TranscriptSegment { start_ms: self.start_ms, end_ms: self.end_ms, text: self.text.clone() }
    }
}

impl ScriptureRef {
    /// A copy of this reference.
    pub fn copied(&self) -> (r: Self)
        ensures
            r == *self,
    {
        ScriptureRef {
            book: self.book.clone(),
            reference: self.reference.clone(),
            timestamp_ms: self.timestamp_ms,
        }
    }
}

/// A copy of a list of segments.
pub fn copy_segments(s: &[TranscriptSegment]) -> (r: Vec<TranscriptSegment>)
    ensures
        r@ == s@,
{
    let mut r: Vec<TranscriptSegment> = Vec::new();
    let mut i: usize = 0;
    while i < s.len()
        invariant
            i <= s@.len(),
            r@ == s@.take(i as int),
        decreases s@.len() - i,
    {
        r.push(s[i].copied());
        assert(r@ =~= s@.take(i + 1));
        i += 1;
    }
    assert(s@.take(s@.len() as int) =~= s@);
    r
}

} // verus!
