# dabar_core

The processing engine of Dabar, a tool that turns sermon recordings into structured
transcripts, chapters and short highlight clips, written in Verus. The functions in `src/`
are verified against their contracts, with two exceptions: the small trusted wrappers
around std, `uuid`, `dirs` and `sysinfo`, whose contracts state what those libraries
document, and a few functions that depend on the machine (such as `is_low_end`), whose
contracts state only what holds on every machine.

Times are integers throughout the library: milliseconds for timestamps and durations,
basis points (10000 = 1.0) for scores, millionths for recognition probabilities, and
thousandths of a LUFS for loudness. Identifiers of chapters and highlights are the 128
bits of their UUIDs.

## Layout

- `src/text.rs` — characters and strings: trimming, searching, splitting, decimal
  numbers and numbers as `f32::from_str` reads them, and the Unicode classes std defines.
- `src/models.rs` — transcript segments, scripture references, paragraphs, sections,
  chapters, highlights and sermon statuses.
- `src/structuring.rs` — scripture reference detection, section markers, custom
  vocabulary, and grouping a transcript into sections and paragraphs.
- `src/whisper.rs`, `src/deepgram.rs` — transcription: the recognition prompt, cleaning
  and filtering recognised text, retries, chunking long recordings and stitching the
  chunks back together, reading Deepgram responses.
- `src/ffmpeg.rs`, `src/clip.rs` — ASS subtitles, FFmpeg reports (duration, loudness),
  audio energy of a segment, and the FFmpeg command that cuts a clip.
- `src/llm.rs` — transcript prompts, importance scores, validation of what a model
  proposes, and the offline chapter and highlight analysis.
- `src/cloud.rs` — which cloud model is asked next, the prompts, and error messages.
- `src/downloader.rs` — YouTube and Google Drive links and yt-dlp output.
- `src/config.rs`, `src/settings.rs`, `src/deps.rs`, `src/db.rs`, `src/commands.rs` —
  configuration, stored settings, tools and hardware, stored statuses, and the decisions
  of the app's commands.
- `tests/` — unit and scenario tests.
- `app/` — the `dabar` command-line tool: files, processes, the network and the database.
