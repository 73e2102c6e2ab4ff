use vstd::prelude::*;
use crate::models::{
    copy_segments, seg_view, segs_view, refs_view, Paragraph, ScriptureRef, Section,
    StructuredTranscript, TranscriptSegment,
};
use crate::text::{
    char_to_uppercase, char_uppercase_of, chars_of, contains, contains_seq, copy_range,
    ends_with, ends_with_seq, find_from, find_from_exec, is_alphanumeric, is_ascii_digit,
    is_ascii_digit_spec, lead_from, lemma_trail_from,
    lowercase_of, push_all, push_str, same_chars, starts_with,
    starts_with_seq, string_of, to_lowercase, trail_from, trim_end, trim_end_seq, trim_start,
    trim_start_seq, unicode_alphanumeric, trim, trim_seq, views, all_ascii, ascii_lower, is_ascii_char,
    lemma_lowercase_ascii, lemma_find_from, matches_at, ws, lemma_lead_from,
    unicode_whitespace, ascii_upper_letter,
};

verus! {

/// The book-name patterns, longest first (ties keep the alias-then-book order), with the
/// canonical book each one names.
pub open spec fn book_pattern_spec(i: int) -> (Seq<char>, Seq<char>) {
    if i == 0 {
        ("second thessalonians"@, "2 Thessalonians"@)
    } else if i == 1 {
        ("first thessalonians"@, "1 Thessalonians"@)
    } else if i == 2 {
        ("second corinthians"@, "2 Corinthians"@)
    } else if i == 3 {
        ("first corinthians"@, "1 Corinthians"@)
    } else if i == 4 {
        ("1st thessalonians"@, "1 Thessalonians"@)
    } else if i == 5 {
        ("2nd thessalonians"@, "2 Thessalonians"@)
    } else if i == 6 {
        ("second chronicles"@, "2 Chronicles"@)
    } else if i == 7 {
        ("first chronicles"@, "1 Chronicles"@)
    } else if i == 8 {
        ("1st corinthians"@, "1 Corinthians"@)
    } else if i == 9 {
        ("2nd corinthians"@, "2 Corinthians"@)
    } else if i == 10 {
        ("song of solomon"@, "Song of Solomon"@)
    } else if i == 11 {
        ("1 thessalonians"@, "1 Thessalonians"@)
    } else if i == 12 {
        ("2 thessalonians"@, "2 Thessalonians"@)
    } else if i == 13 {
        ("second timothy"@, "2 Timothy"@)
    } else if i == 14 {
        ("1st chronicles"@, "1 Chronicles"@)
    } else if i == 15 {
        ("2nd chronicles"@, "2 Chronicles"@)
    } else if i == 16 {
        ("first timothy"@, "1 Timothy"@)
    } else if i == 17 {
        ("second samuel"@, "2 Samuel"@)
    } else if i == 18 {
        ("song of songs"@, "Song of Solomon"@)
    } else if i == 19 {
        ("1 corinthians"@, "1 Corinthians"@)
    } else if i == 20 {
        ("2 corinthians"@, "2 Corinthians"@)
    } else if i == 21 {
        ("second peter"@, "2 Peter"@)
    } else if i == 22 {
        ("first samuel"@, "1 Samuel"@)
    } else if i == 23 {
        ("second kings"@, "2 Kings"@)
    } else if i == 24 {
        ("1 chronicles"@, "1 Chronicles"@)
    } else if i == 25 {
        ("2 chronicles"@, "2 Chronicles"@)
    } else if i == 26 {
        ("ecclesiastes"@, "Ecclesiastes"@)
    } else if i == 27 {
        ("lamentations"@, "Lamentations"@)
    } else if i == 28 {
        ("1st timothy"@, "1 Timothy"@)
    } else if i == 29 {
        ("2nd timothy"@, "2 Timothy"@)
    } else if i == 30 {
        ("first peter"@, "1 Peter"@)
    } else if i == 31 {
        ("second john"@, "2 John"@)
    } else if i == 32 {
        ("first kings"@, "1 Kings"@)
    } else if i == 33 {
        ("revelations"@, "Revelation"@)
    } else if i == 34 {
        ("deuteronomy"@, "Deuteronomy"@)
    } else if i == 35 {
        ("philippians"@, "Philippians"@)
    } else if i == 36 {
        ("first john"@, "1 John"@)
    } else if i == 37 {
        ("third john"@, "3 John"@)
    } else if i == 38 {
        ("1st samuel"@, "1 Samuel"@)
    } else if i == 39 {
        ("2nd samuel"@, "2 Samuel"@)
    } else if i == 40 {
        ("colossians"@, "Colossians"@)
    } else if i == 41 {
        ("revelation"@, "Revelation"@)
    } else if i == 42 {
        ("1st peter"@, "1 Peter"@)
    } else if i == 43 {
        ("2nd peter"@, "2 Peter"@)
    } else if i == 44 {
        ("1st kings"@, "1 Kings"@)
    } else if i == 45 {
        ("2nd kings"@, "2 Kings"@)
    } else if i == 46 {
        ("leviticus"@, "Leviticus"@)
    } else if i == 47 {
        ("zephaniah"@, "Zephaniah"@)
    } else if i == 48 {
        ("zechariah"@, "Zechariah"@)
    } else if i == 49 {
        ("galatians"@, "Galatians"@)
    } else if i == 50 {
        ("ephesians"@, "Ephesians"@)
    } else if i == 51 {
        ("1 timothy"@, "1 Timothy"@)
    } else if i == 52 {
        ("2 timothy"@, "2 Timothy"@)
    } else if i == 53 {
        ("1st john"@, "1 John"@)
    } else if i == 54 {
        ("2nd john"@, "2 John"@)
    } else if i == 55 {
        ("3rd john"@, "3 John"@)
    } else if i == 56 {
        ("1 samuel"@, "1 Samuel"@)
    } else if i == 57 {
        ("2 samuel"@, "2 Samuel"@)
    } else if i == 58 {
        ("nehemiah"@, "Nehemiah"@)
    } else if i == 59 {
        ("proverbs"@, "Proverbs"@)
    } else if i == 60 {
        ("jeremiah"@, "Jeremiah"@)
    } else if i == 61 {
        ("habakkuk"@, "Habakkuk"@)
    } else if i == 62 {
        ("philemon"@, "Philemon"@)
    } else if i == 63 {
        ("genesis"@, "Genesis"@)
    } else if i == 64 {
        ("numbers"@, "Numbers"@)
    } else if i == 65 {
        ("1 kings"@, "1 Kings"@)
    } else if i == 66 {
        ("2 kings"@, "2 Kings"@)
    } else if i == 67 {
        ("ezekiel"@, "Ezekiel"@)
    } else if i == 68 {
        ("obadiah"@, "Obadiah"@)
    } else if i == 69 {
        ("malachi"@, "Malachi"@)
    } else if i == 70 {
        ("matthew"@, "Matthew"@)
    } else if i == 71 {
        ("hebrews"@, "Hebrews"@)
    } else if i == 72 {
        ("1 peter"@, "1 Peter"@)
    } else if i == 73 {
        ("2 peter"@, "2 Peter"@)
    } else if i == 74 {
        ("exodus"@, "Exodus"@)
    } else if i == 75 {
        ("joshua"@, "Joshua"@)
    } else if i == 76 {
        ("judges"@, "Judges"@)
    } else if i == 77 {
        ("esther"@, "Esther"@)
    } else if i == 78 {
        ("psalms"@, "Psalms"@)
    } else if i == 79 {
        ("isaiah"@, "Isaiah"@)
    } else if i == 80 {
        ("daniel"@, "Daniel"@)
    } else if i == 81 {
        ("haggai"@, "Haggai"@)
    } else if i == 82 {
        ("romans"@, "Romans"@)
    } else if i == 83 {
        ("1 john"@, "1 John"@)
    } else if i == 84 {
        ("2 john"@, "2 John"@)
    } else if i == 85 {
        ("3 john"@, "3 John"@)
    } else if i == 86 {
        ("psalm"@, "Psalm"@)
    } else if i == 87 {
        ("hosea"@, "Hosea"@)
    } else if i == 88 {
        ("jonah"@, "Jonah"@)
    } else if i == 89 {
        ("micah"@, "Micah"@)
    } else if i == 90 {
        ("nahum"@, "Nahum"@)
    } else if i == 91 {
        ("titus"@, "Titus"@)
    } else if i == 92 {
        ("james"@, "James"@)
    } else if i == 93 {
        ("ruth"@, "Ruth"@)
    } else if i == 94 {
        ("ezra"@, "Ezra"@)
    } else if i == 95 {
        ("joel"@, "Joel"@)
    } else if i == 96 {
        ("amos"@, "Amos"@)
    } else if i == 97 {
        ("mark"@, "Mark"@)
    } else if i == 98 {
        ("luke"@, "Luke"@)
    } else if i == 99 {
        ("john"@, "John"@)
    } else if i == 100 {
        ("acts"@, "Acts"@)
    } else if i == 101 {
        ("jude"@, "Jude"@)
    } else {
        ("job"@, "Job"@)
    }
}

pub open spec fn book_pattern_count() -> int {
    103
}

fn book_pattern(i: usize) -> (r: (&'static str, &'static str))
    requires
        i < 103,
    ensures
        r.0@ == book_pattern_spec(i as int).0,
        r.1@ == book_pattern_spec(i as int).1,
{
    match i {
        0 => ("second thessalonians", "2 Thessalonians"),
        1 => ("first thessalonians", "1 Thessalonians"),
        2 => ("second corinthians", "2 Corinthians"),
        3 => ("first corinthians", "1 Corinthians"),
        4 => ("1st thessalonians", "1 Thessalonians"),
        5 => ("2nd thessalonians", "2 Thessalonians"),
        6 => ("second chronicles", "2 Chronicles"),
        7 => ("first chronicles", "1 Chronicles"),
        8 => ("1st corinthians", "1 Corinthians"),
        9 => ("2nd corinthians", "2 Corinthians"),
        10 => ("song of solomon", "Song of Solomon"),
        11 => ("1 thessalonians", "1 Thessalonians"),
        12 => ("2 thessalonians", "2 Thessalonians"),
        13 => ("second timothy", "2 Timothy"),
        14 => ("1st chronicles", "1 Chronicles"),
        15 => ("2nd chronicles", "2 Chronicles"),
        16 => ("first timothy", "1 Timothy"),
        17 => ("second samuel", "2 Samuel"),
        18 => ("song of songs", "Song of Solomon"),
        19 => ("1 corinthians", "1 Corinthians"),
        20 => ("2 corinthians", "2 Corinthians"),
        21 => ("second peter", "2 Peter"),
        22 => ("first samuel", "1 Samuel"),
        23 => ("second kings", "2 Kings"),
        24 => ("1 chronicles", "1 Chronicles"),
        25 => ("2 chronicles", "2 Chronicles"),
        26 => ("ecclesiastes", "Ecclesiastes"),
        27 => ("lamentations", "Lamentations"),
        28 => ("1st timothy", "1 Timothy"),
        29 => ("2nd timothy", "2 Timothy"),
        30 => ("first peter", "1 Peter"),
        31 => ("second john", "2 John"),
        32 => ("first kings", "1 Kings"),
        33 => ("revelations", "Revelation"),
        34 => ("deuteronomy", "Deuteronomy"),
        35 => ("philippians", "Philippians"),
        36 => ("first john", "1 John"),
        37 => ("third john", "3 John"),
        38 => ("1st samuel", "1 Samuel"),
        39 => ("2nd samuel", "2 Samuel"),
        40 => ("colossians", "Colossians"),
        41 => ("revelation", "Revelation"),
        42 => ("1st peter", "1 Peter"),
        43 => ("2nd peter", "2 Peter"),
        44 => ("1st kings", "1 Kings"),
        45 => ("2nd kings", "2 Kings"),
        46 => ("leviticus", "Leviticus"),
        47 => ("zephaniah", "Zephaniah"),
        48 => ("zechariah", "Zechariah"),
        49 => ("galatians", "Galatians"),
        50 => ("ephesians", "Ephesians"),
        51 => ("1 timothy", "1 Timothy"),
        52 => ("2 timothy", "2 Timothy"),
        53 => ("1st john", "1 John"),
        54 => ("2nd john", "2 John"),
        55 => ("3rd john", "3 John"),
        56 => ("1 samuel", "1 Samuel"),
        57 => ("2 samuel", "2 Samuel"),
        58 => ("nehemiah", "Nehemiah"),
        59 => ("proverbs", "Proverbs"),
        60 => ("jeremiah", "Jeremiah"),
        61 => ("habakkuk", "Habakkuk"),
        62 => ("philemon", "Philemon"),
        63 => ("genesis", "Genesis"),
        64 => ("numbers", "Numbers"),
        65 => ("1 kings", "1 Kings"),
        66 => ("2 kings", "2 Kings"),
        67 => ("ezekiel", "Ezekiel"),
        68 => ("obadiah", "Obadiah"),
        69 => ("malachi", "Malachi"),
        70 => ("matthew", "Matthew"),
        71 => ("hebrews", "Hebrews"),
        72 => ("1 peter", "1 Peter"),
        73 => ("2 peter", "2 Peter"),
        74 => ("exodus", "Exodus"),
        75 => ("joshua", "Joshua"),
        76 => ("judges", "Judges"),
        77 => ("esther", "Esther"),
        78 => ("psalms", "Psalms"),
        79 => ("isaiah", "Isaiah"),
        80 => ("daniel", "Daniel"),
        81 => ("haggai", "Haggai"),
        82 => ("romans", "Romans"),
        83 => ("1 john", "1 John"),
        84 => ("2 john", "2 John"),
        85 => ("3 john", "3 John"),
        86 => ("psalm", "Psalm"),
        87 => ("hosea", "Hosea"),
        88 => ("jonah", "Jonah"),
        89 => ("micah", "Micah"),
        90 => ("nahum", "Nahum"),
        91 => ("titus", "Titus"),
        92 => ("james", "James"),
        93 => ("ruth", "Ruth"),
        94 => ("ezra", "Ezra"),
        95 => ("joel", "Joel"),
        96 => ("amos", "Amos"),
        97 => ("mark", "Mark"),
        98 => ("luke", "Luke"),
        99 => ("john", "John"),
        100 => ("acts", "Acts"),
        101 => ("jude", "Jude"),
        _ => ("job", "Job"),
    }
}

/// The phrases that open a new sermon section, in the order they are tried.
pub open spec fn section_marker_spec(i: int) -> Seq<char> {
    if i == 0 {
        "let us pray"@
    } else if i == 1 {
        "let's pray"@
    } else if i == 2 {
        "bow your heads"@
    } else if i == 3 {
        "open your bibles"@
    } else if i == 4 {
        "turn with me to"@
    } else if i == 5 {
        "turn to"@
    } else if i == 6 {
        "look at verse"@
    } else if i == 7 {
        "first point"@
    } else if i == 8 {
        "second point"@
    } else if i == 9 {
        "third point"@
    } else if i == 10 {
        "fourth point"@
    } else if i == 11 {
        "point number one"@
    } else if i == 12 {
        "point number two"@
    } else if i == 13 {
        "point number three"@
    } else if i == 14 {
        "my first point"@
    } else if i == 15 {
        "my second point"@
    } else if i == 16 {
        "in conclusion"@
    } else if i == 17 {
        "to conclude"@
    } else if i == 18 {
        "in closing"@
    } else if i == 19 {
        "finally,"@
    } else if i == 20 {
        "let us stand"@
    } else {
        "let's stand"@
    }
}

pub open spec fn section_marker_count() -> int {
    22
}

fn section_marker(i: usize) -> (r: &'static str)
    requires
        i < 22,
    ensures
        r@ == section_marker_spec(i as int),
{
    match i {
        0 => "let us pray",
        1 => "let's pray",
        2 => "bow your heads",
        3 => "open your bibles",
        4 => "turn with me to",
        5 => "turn to",
        6 => "look at verse",
        7 => "first point",
        8 => "second point",
        9 => "third point",
        10 => "fourth point",
        11 => "point number one",
        12 => "point number two",
        13 => "point number three",
        14 => "my first point",
        15 => "my second point",
        16 => "in conclusion",
        17 => "to conclude",
        18 => "in closing",
        19 => "finally,",
        20 => "let us stand",
        _ => "let's stand",
    }
}


pub open spec fn digit_pred() -> spec_fn(char) -> bool {
    |c: char| is_ascii_digit_spec(c)
}

pub open spec fn non_digit_pred() -> spec_fn(char) -> bool {
    |c: char| !is_ascii_digit_spec(c)
}

/// Drops a leading "chapter ", "ch. " or "ch " word (and the spaces after it).
pub open spec fn strip_chapter_word(l: Seq<char>) -> Seq<char> {
    if starts_with_seq(l, "chapter "@) {
        trim_start_seq(l.skip(8))
    } else if starts_with_seq(l, "ch. "@) {
        trim_start_seq(l.skip(4))
    } else if starts_with_seq(l, "ch "@) {
        trim_start_seq(l.skip(3))
    } else {
        l
    }
}

/// What follows the separator between a chapter number and a verse, if there is one.
pub open spec fn verse_separator(rem: Seq<char>) -> Option<Seq<char>> {
    if starts_with_seq(rem, ":"@) {
        Some(trim_start_seq(rem.skip(1)))
    } else if starts_with_seq(rem, ", verse "@) {
        Some(trim_start_seq(rem.skip(8)))
    } else if starts_with_seq(rem, ", verses "@) {
        Some(trim_start_seq(rem.skip(9)))
    } else if starts_with_seq(rem, "verse "@) {
        Some(trim_start_seq(rem.skip(6)))
    } else if starts_with_seq(rem, "verses "@) {
        Some(trim_start_seq(rem.skip(7)))
    } else if starts_with_seq(rem, "v. "@) {
        Some(trim_start_seq(rem.skip(3)))
    } else if starts_with_seq(rem, "v "@) {
        Some(trim_start_seq(rem.skip(2)))
    } else if starts_with_seq(rem, ", v. "@) {
        Some(trim_start_seq(rem.skip(5)))
    } else if starts_with_seq(rem, ", v "@) {
        Some(trim_start_seq(rem.skip(4)))
    } else {
        None
    }
}

pub open spec fn verse_char(c: char) -> bool {
    is_ascii_digit_spec(c) || c == '-' || c == ','
}

/// Collects the verse part: digits, dashes and commas, "to" read as a dash, single spaces
/// skipped when more verse characters follow.
pub open spec fn verse_scan(v: Seq<char>, i: int, acc: Seq<char>) -> Seq<char>
    decreases v.len() - i,
{
    if i < 0 || i >= v.len() {
        acc
    } else if verse_char(v[i]) {
        verse_scan(v, i + 1, acc.push(v[i]))
    } else if v[i] == ' ' {
        if i + 3 < v.len() && v[i + 1] == 't' && v[i + 2] == 'o' && v[i + 3] == ' ' {
            verse_scan(v, i + 4, acc.push('-'))
        } else if i + 1 < v.len() && verse_char(v[i + 1]) {
            verse_scan(v, i + 1, acc)
        } else {
            acc
        }
    } else {
        acc
    }
}

/// `trim_matches(|c| !c.is_ascii_digit())`.
pub open spec fn trim_non_digits(s: Seq<char>) -> Seq<char> {
    let t = s.skip(lead_from(s, non_digit_pred(), 0) as int);
    t.take(t.len() - trail_from(t, non_digit_pred(), t.len() as int))
}

/// The chapter (and verse) reference that the text right after a book name starts with:
/// "3:16", "8:28-30", "chapter 8 verse 28", "23", ...
pub open spec fn chapter_verse_spec(s: Seq<char>) -> Option<Seq<char>> {
    let ac = strip_chapter_word(lowercase_of(trim_start_seq(s)));
    let n = lead_from(ac, digit_pred(), 0);
    if n == 0 {
        None
    } else {
        let ch = ac.take(n as int);
        let rem = trim_start_seq(ac.skip(n as int));
        let cleaned = match verse_separator(rem) {
            Some(v) => trim_non_digits(verse_scan(v, 0, seq![])),
            None => seq![],
        };
        if cleaned.len() > 0 {
            Some(ch + seq![':'] + cleaned)
        } else if n <= 3 {
            Some(ch)
        } else {
            None
        }
    }
}

fn skip_chars(v: &Vec<char>, k: usize) -> (r: Vec<char>)
    requires
        k <= v@.len(),
    ensures
        r@ == v@.skip(k as int),
{
    let r = copy_range(v, k, v.len());
    assert(r@ =~= v@.skip(k as int));
    r
}

fn strip_chapter_word_exec(l: &Vec<char>) -> (r: Vec<char>)
    ensures
        r@ == strip_chapter_word(l@),
{
    proof {
        reveal_strlit("chapter ");
        reveal_strlit("ch. ");
        reveal_strlit("ch ");
    }
    if starts_with(l, &chars_of("chapter ")) {
        trim_start(&skip_chars(l, 8))
    } else if starts_with(l, &chars_of("ch. ")) {
        trim_start(&skip_chars(l, 4))
    } else if starts_with(l, &chars_of("ch ")) {
        trim_start(&skip_chars(l, 3))
    } else {
        copy_range(l, 0, l.len())
    }
}

fn sep_after(rem: &Vec<char>, p: &str) -> (r: Option<Vec<char>>)
    ensures
        r matches Some(v) ==> starts_with_seq(rem@, p@) && v@ == trim_start_seq(
            rem@.skip(p@.len() as int),
        ),
        r is None ==> !starts_with_seq(rem@, p@),
{
    let pc = chars_of(p);
    if starts_with(rem, &pc) {
        Some(trim_start(&skip_chars(rem, pc.len())))
    } else {
        None
    }
}

fn verse_separator_exec(rem: &Vec<char>) -> (r: Option<Vec<char>>)
    ensures
        r matches Some(v) ==> verse_separator(rem@) == Some(v@),
        r is None ==> verse_separator(rem@) is None,
{
    proof {
        reveal_strlit(":");
        reveal_strlit(", verse ");
        reveal_strlit(", verses ");
        reveal_strlit("verse ");
        reveal_strlit("verses ");
        reveal_strlit("v. ");
        reveal_strlit("v ");
        reveal_strlit(", v. ");
        reveal_strlit(", v ");
    }
    if let Some(v) = sep_after(rem, ":") {
        return Some(v);
    }
    if let Some(v) = sep_after(rem, ", verse ") {
        return Some(v);
    }
    if let Some(v) = sep_after(rem, ", verses ") {
        return Some(v);
    }
    if let Some(v) = sep_after(rem, "verse ") {
        return Some(v);
    }
    if let Some(v) = sep_after(rem, "verses ") {
        return Some(v);
    }
    if let Some(v) = sep_after(rem, "v. ") {
        return Some(v);
    }
    if let Some(v) = sep_after(rem, "v ") {
        return Some(v);
    }
    if let Some(v) = sep_after(rem, ", v. ") {
        return Some(v);
    }
    sep_after(rem, ", v ")
}

fn is_verse_char(c: char) -> (r: bool)
    ensures
        r == verse_char(c),
{
    is_ascii_digit(c) || c == '-' || c == ','
}

fn verse_scan_exec(v: &Vec<char>) -> (r: Vec<char>)
    ensures
        r@ == verse_scan(v@, 0, seq![]),
{
    let mut acc: Vec<char> = Vec::new();
    let mut i: usize = 0;
    while i < v.len()
        invariant
            i <= v@.len() + 1,
            v@.len() == v.len(),
            verse_scan(v@, 0, seq![]) == verse_scan(v@, i as int, acc@),
        decreases v@.len() + 1 - i,
    {
        let c = v[i];
        if is_verse_char(c) {
            acc.push(c);
            i += 1;
        } else if c == ' ' {
            if v.len() > 3 && i < v.len() - 3 && v[i + 1] == 't' && v[i + 2] == 'o' && v[i + 3] == ' ' {
                acc.push('-');
                i += 4;
            } else if i + 1 < v.len() && is_verse_char(v[i + 1]) {
                i += 1;
            } else {
                return acc;
            }
        } else {
            return acc;
        }
    }
    acc
}

fn trim_non_digits_exec(s: &Vec<char>) -> (r: Vec<char>)
    ensures
        r@ == trim_non_digits(s@),
{
    let mut a: usize = 0;
    while a < s.len() && !is_ascii_digit(s[a])
        invariant
            a <= s@.len(),
            lead_from(s@, non_digit_pred(), 0) == a + lead_from(s@, non_digit_pred(), a as int),
        decreases s@.len() - a,
    {
        a += 1;
    }
    let t = skip_chars(s, a);
    let mut b: usize = t.len();
    while b > 0 && !is_ascii_digit(t[b - 1])
        invariant
            b <= t@.len(),
            trail_from(t@, non_digit_pred(), t@.len() as int) == (t@.len() - b) + trail_from(
                t@,
                non_digit_pred(),
                b as int,
            ),
        decreases b,
    {
        b -= 1;
    }
    proof {
        lemma_trail_from(t@, non_digit_pred(), t@.len() as int);
    }
    let r = copy_range(&t, 0, b);
    assert(r@ =~= t@.take(b as int));
    r
}

/// Helper to parse chapter:verse variations like " 3:16", " 8:28-30", " chapter 3 verse 16",
/// " 8 verses 28-30", " 8 v 28", or a bare chapter " 23".
pub fn parse_chapter_verse(s: &str) -> (r: Option<String>)
    ensures
        opt_chars(r) == chapter_verse_spec(s@),
{
    let st = trim_start(&chars_of(s));
    let lower = chars_of(&to_lowercase(&string_of(&st)));
    let ac = strip_chapter_word_exec(&lower);
    let mut n: usize = 0;
    while n < ac.len() && is_ascii_digit(ac[n])
        invariant
            n <= ac@.len(),
            lead_from(ac@, digit_pred(), 0) == n + lead_from(ac@, digit_pred(), n as int),
        decreases ac@.len() - n,
    {
        n += 1;
    }
    if n == 0 {
        return None;
    }
    let ch = copy_range(&ac, 0, n);
    assert(ch@ =~= ac@.take(n as int));
    let rem = trim_start(&skip_chars(&ac, n));
    let cleaned = match verse_separator_exec(&rem) {
        Some(v) => trim_non_digits_exec(&verse_scan_exec(&v)),
        None => Vec::new(),
    };
    if cleaned.len() > 0 {
        let mut out = ch;
        out.push(':');
        push_all(&mut out, &cleaned);
        Some(string_of(&out))
    } else if n <= 3 {
        Some(string_of(&ch))
    } else {
        None
    }
}

pub open spec fn opt_chars(r: Option<String>) -> Option<Seq<char>> {
    match r {
        Some(v) => Some(v@),
        None => None,
    }
}


// ---------------------------------------------------------------------------
// Section markers.
// ---------------------------------------------------------------------------

/// A marker with its first character upper-cased, as a section heading.
pub open spec fn capitalized(m: Seq<char>) -> Seq<char> {
    if m.len() == 0 {
        seq![]
    } else {
        char_uppercase_of(m[0]) + m.skip(1)
    }
}

/// Index of the first section marker, from `i` on, that the lowercase text contains.
pub open spec fn first_marker_from(lower: Seq<char>, i: int) -> Option<int>
    decreases section_marker_count() - i,
{
    if i < 0 || i >= section_marker_count() {
        None
    } else if contains_seq(lower, section_marker_spec(i)) {
        Some(i)
    } else {
        first_marker_from(lower, i + 1)
    }
}

/// The heading of the section that a segment opens, if it holds a section marker.
pub open spec fn section_title_spec(text: Seq<char>) -> Option<Seq<char>> {
    match first_marker_from(lowercase_of(text), 0) {
        Some(i) => Some(capitalized(section_marker_spec(i))),
        None => None,
    }
}

/// Check if a text segment contains a sermon section boundary marker.
pub fn detect_section_title(text: &str) -> (r: Option<String>)
    ensures
        opt_chars(r) == section_title_spec(text@),
{
    let lower = chars_of(&to_lowercase(text));
    let mut i: usize = 0;
    while i < 22
        invariant
            i <= 22,
            lower@ == lowercase_of(text@),
            first_marker_from(lower@, 0) == first_marker_from(lower@, i as int),
        decreases 22 - i,
    {
        let m = chars_of(section_marker(i));
        if contains(&lower, &m) {
            if m.len() == 0 {
                return Some(string_of(&m));
            }
            let mut out = char_to_uppercase(m[0]);
            let rest = copy_range(&m, 1, m.len());
            assert(rest@ =~= m@.skip(1));
            push_all(&mut out, &rest);
            return Some(string_of(&out));
        }
        i += 1;
    }
    None
}

proof fn lemma_first_marker_from(lower: Seq<char>, i: int)
    requires
        0 <= i,
    ensures
        first_marker_from(lower, i) is Some <==> exists|k: int|
            i <= k < section_marker_count() && contains_seq(lower, #[trigger] section_marker_spec(k)),
        first_marker_from(lower, i) matches Some(k) ==> i <= k < section_marker_count() && contains_seq(
            lower,
            section_marker_spec(k),
        ) && forall|j: int| i <= j < k ==> !contains_seq(lower, #[trigger] section_marker_spec(j)),
    decreases section_marker_count() - i,
{
    if i < section_marker_count() && !contains_seq(lower, section_marker_spec(i)) {
        lemma_first_marker_from(lower, i + 1);
        assert forall|k: int| i <= k < section_marker_count() && contains_seq(
            lower,
            #[trigger] section_marker_spec(k),
        ) implies i + 1 <= k by {}
    }
}

/// A text opens a section exactly when its lowercase form contains one of the section
/// markers; the heading is then the first such marker in list order, capitalised.
pub proof fn lemma_section_title_iff(text: Seq<char>)
    ensures
        section_title_spec(text) is Some <==> exists|k: int|
            0 <= k < section_marker_count() && contains_seq(
                lowercase_of(text),
                #[trigger] section_marker_spec(k),
            ),
        section_title_spec(text) matches Some(t) ==> exists|k: int|
            0 <= k < section_marker_count() && t == capitalized(section_marker_spec(k)) && contains_seq(
                lowercase_of(text),
                #[trigger] section_marker_spec(k),
            ) && forall|j: int|
                0 <= j < k ==> !contains_seq(lowercase_of(text), #[trigger] section_marker_spec(j)),
{
    lemma_first_marker_from(lowercase_of(text), 0);
}

// ---------------------------------------------------------------------------
// Scripture references.
// ---------------------------------------------------------------------------

/// Books whose names are also common English words; they need a chapter number.
pub open spec fn ambiguous_book(b: Seq<char>) -> bool {
    b == "Mark"@ || b == "Job"@ || b == "Acts"@ || b == "James"@ || b == "Ruth"@
}

/// The text before character index `pos` (all of it when `pos` is past the end).
pub open spec fn head_to(text: Seq<char>, pos: int) -> Seq<char> {
    if 0 <= pos <= text.len() {
        text.take(pos)
    } else {
        text
    }
}

/// The text from character index `end` on (nothing when `end` is past the end).
pub open spec fn tail_from(text: Seq<char>, end: int) -> Seq<char> {
    if 0 <= end <= text.len() {
        text.skip(end)
    } else {
        seq![]
    }
}

/// The book name at `pos` is introduced as "book of", "gospel of" or "epistle of".
pub open spec fn book_intro_before(text: Seq<char>, pos: int) -> bool {
    let p = lowercase_of(trim_end_seq(head_to(text, pos)));
    ends_with_seq(p, "book of"@) || ends_with_seq(p, "gospel of"@) || ends_with_seq(
        p,
        "epistle of"@,
    )
}

/// No letter or digit just before `pos`.
pub open spec fn starts_word(text: Seq<char>, pos: int) -> bool {
    pos <= 0 || pos > text.len() || !unicode_alphanumeric(text[pos - 1])
}

/// No letter or digit at `end`.
pub open spec fn ends_word(text: Seq<char>, end: int) -> bool {
    end < 0 || end >= text.len() || !unicode_alphanumeric(text[end])
}

/// `[pos, end)` overlaps one of the spans already taken.
pub open spec fn overlaps_any(spans: Seq<(int, int)>, pos: int, end: int) -> bool {
    exists|k: int| 0 <= k < spans.len() && pos < #[trigger] spans[k].1 && end > spans[k].0
}

/// Found references as (book, reference) pairs.
pub open spec fn ref_pairs(r: Seq<ScriptureRef>) -> Seq<(Seq<char>, Seq<char>)> {
    r.map_values(|x: ScriptureRef| (x.book@, x.reference@))
}

/// Taken spans as integer pairs.
pub open spec fn span_view(s: Seq<(usize, usize)>) -> Seq<(int, int)> {
    s.map_values(|p: (usize, usize)| (p.0 as int, p.1 as int))
}

/// What an occurrence of a pattern for book `canon` at `[pos, end)` adds to the spans
/// taken and the references found.
pub open spec fn take_match(
    text: Seq<char>,
    pos: int,
    end: int,
    canon: Seq<char>,
    spans: Seq<(int, int)>,
    refs: Seq<(Seq<char>, Seq<char>)>,
) -> (Seq<(int, int)>, Seq<(Seq<char>, Seq<char>)>) {
    if !(starts_word(text, pos) && ends_word(text, end)) || overlaps_any(spans, pos, end) {
        (spans, refs)
    } else {
        match chapter_verse_spec(tail_from(text, end)) {
            Some(r) => (spans.push((pos, end)), refs.push((canon, canon + " "@ + r))),
            None => if !ambiguous_book(canon) && book_intro_before(text, pos) {
                (spans.push((pos, end)), refs.push((canon, canon)))
            } else {
                (spans, refs)
            },
        }
    }
}

/// Walks the occurrences of pattern `k` in the lowercase text from index `idx` on.
pub open spec fn scan_pattern(
    text: Seq<char>,
    lower: Seq<char>,
    k: int,
    idx: int,
    spans: Seq<(int, int)>,
    refs: Seq<(Seq<char>, Seq<char>)>,
) -> (Seq<(int, int)>, Seq<(Seq<char>, Seq<char>)>)
    decreases lower.len() + 1 - idx,
{
    let pat = book_pattern_spec(k).0;
    match find_from(lower, pat, idx) {
        None => (spans, refs),
        Some(pos) => {
            let end = pos + pat.len();
            if pat.len() == 0 || pos < idx || end > lower.len() {
                (spans, refs)
            } else {
                let t = take_match(text, pos, end, book_pattern_spec(k).1, spans, refs);
                scan_pattern(text, lower, k, end, t.0, t.1)
            }
        },
    }
}

/// Walks the patterns from `k` on, longest first.
pub open spec fn scan_books(
    text: Seq<char>,
    lower: Seq<char>,
    k: int,
    spans: Seq<(int, int)>,
    refs: Seq<(Seq<char>, Seq<char>)>,
) -> (Seq<(int, int)>, Seq<(Seq<char>, Seq<char>)>)
    decreases book_pattern_count() - k,
{
    if k < 0 || k >= book_pattern_count() {
        (spans, refs)
    } else {
        let t = scan_pattern(text, lower, k, 0, spans, refs);
        scan_books(text, lower, k + 1, t.0, t.1)
    }
}

/// The references found in a text, in the order found.
pub open spec fn found_refs(text: Seq<char>) -> Seq<(Seq<char>, Seq<char>)> {
    scan_books(text, lowercase_of(text), 0, seq![], seq![]).1
}

/// Found references with the place where each starts in the text: the start of the span
/// taken for it, and the reference.
pub open spec fn placed_refs(
    spans: Seq<(int, int)>,
    refs: Seq<(Seq<char>, Seq<char>)>,
) -> Seq<(int, (Seq<char>, Seq<char>))> {
    Seq::new(refs.len(), |i: int| (spans[i].0, refs[i]))
}

/// The references found in a text with their places, in the order found.
pub open spec fn found_placed(text: Seq<char>) -> Seq<(int, (Seq<char>, Seq<char>))> {
    let t = scan_books(text, lowercase_of(text), 0, seq![], seq![]);
    placed_refs(t.0, t.1)
}

/// Where a reference placed at `p` goes in a list ordered by place: after every reference
/// placed at or before `p`.
pub open spec fn place_insert_pos(s: Seq<(int, (Seq<char>, Seq<char>))>, p: int, j: int) -> int
    decreases s.len() - j,
{
    if j < 0 || j >= s.len() {
        s.len() as int
    } else if p < s[j].0 {
        j
    } else {
        place_insert_pos(s, p, j + 1)
    }
}

/// Stable sort by place in the text.
pub open spec fn sort_by_place(s: Seq<(int, (Seq<char>, Seq<char>))>) -> Seq<
    (int, (Seq<char>, Seq<char>)),
>
    decreases s.len(),
{
    if s.len() == 0 {
        s
    } else {
        let t = sort_by_place(s.drop_last());
        t.insert(place_insert_pos(t, s.last().0, 0), s.last())
    }
}

/// The reference text at index `i` already occurs before `i`.
pub open spec fn repeats_earlier(s: Seq<(int, (Seq<char>, Seq<char>))>, i: int) -> bool {
    exists|k: int| 0 <= k < i && (#[trigger] s[k]).1.1 == s[i].1.1
}

/// Keeps the first occurrence of each reference text and drops the later ones.
pub open spec fn first_occurrences(s: Seq<(int, (Seq<char>, Seq<char>))>) -> Seq<
    (int, (Seq<char>, Seq<char>)),
>
    decreases s.len(),
{
    if s.len() == 0 {
        s
    } else {
        let d = first_occurrences(s.drop_last());
        if repeats_earlier(s, s.len() - 1) {
            d
        } else {
            d.push(s.last())
        }
    }
}

/// The scripture references of a text with their places: found longest book name first, then
/// put in order of appearance, each reference text kept where it first appears.
#[verifier::opaque]
pub open spec fn placed_scripture_refs(text: Seq<char>) -> Seq<(int, (Seq<char>, Seq<char>))> {
    first_occurrences(sort_by_place(found_placed(text)))
}

/// The scripture references of a text, as (book, reference) pairs in order of appearance.
pub open spec fn scripture_refs_spec(text: Seq<char>) -> Seq<(Seq<char>, Seq<char>)> {
    placed_scripture_refs(text).map_values(|x: (int, (Seq<char>, Seq<char>))| x.1)
}

/// Every reference carries the timestamp `ts`.
pub open spec fn all_at(r: Seq<ScriptureRef>, ts: u64) -> bool {
    forall|i: int| 0 <= i < r.len() ==> (#[trigger] r[i]).timestamp_ms == ts
}

fn is_ambiguous_book(canon: &[char]) -> (r: bool)
    ensures
        r == ambiguous_book(canon@),
{
    same_chars(canon, &chars_of("Mark")) || same_chars(canon, &chars_of("Job")) || same_chars(
        canon,
        &chars_of("Acts"),
    ) || same_chars(canon, &chars_of("James")) || same_chars(canon, &chars_of("Ruth"))
}

fn starts_word_exec(tc: &Vec<char>, pos: usize) -> (r: bool)
    ensures
        r == starts_word(tc@, pos as int),
{
    pos == 0 || pos > tc.len() || !is_alphanumeric(tc[pos - 1])
}

fn ends_word_exec(tc: &Vec<char>, end: usize) -> (r: bool)
    ensures
        r == ends_word(tc@, end as int),
{
    end >= tc.len() || !is_alphanumeric(tc[end])
}

fn overlaps_exec(spans: &Vec<(usize, usize)>, pos: usize, end: usize) -> (r: bool)
    ensures
        r == overlaps_any(span_view(spans@), pos as int, end as int),
{
    let ghost sv = span_view(spans@);
    let mut k: usize = 0;
    while k < spans.len()
        invariant
            k <= spans@.len(),
            sv == span_view(spans@),
            forall|j: int| 0 <= j < k ==> !(pos < #[trigger] sv[j].1 && end > sv[j].0),
        decreases spans@.len() - k,
    {
        let (a, b) = spans[k];
        if pos < b && end > a {
            assert(sv[k as int] == (a as int, b as int));
            return true;
        }
        k += 1;
    }
    false
}

fn book_intro_exec(tc: &Vec<char>, pos: usize) -> (r: bool)
    ensures
        r == book_intro_before(tc@, pos as int),
{
    let head = if pos <= tc.len() {
        copy_range(tc, 0, pos)
    } else {
        copy_range(tc, 0, tc.len())
    };
    assert(head@ =~= head_to(tc@, pos as int));
    let p = chars_of(&to_lowercase(&string_of(&trim_end(&head))));
    ends_with(&p, &chars_of("book of")) || ends_with(&p, &chars_of("gospel of")) || ends_with(
        &p,
        &chars_of("epistle of"),
    )
}

fn take_match_exec(
    tc: &Vec<char>,
    pos: usize,
    end: usize,
    canon: &str,
    spans: &mut Vec<(usize, usize)>,
    refs: &mut Vec<ScriptureRef>,
    ts: u64,
)
    requires
        all_at(old(refs)@, ts),
    ensures
        all_at(final(refs)@, ts),
        final(spans)@.len() - old(spans)@.len() == final(refs)@.len() - old(refs)@.len(),
        (span_view(final(spans)@), ref_pairs(final(refs)@)) == take_match(
            tc@,
            pos as int,
            end as int,
            canon@,
            span_view(old(spans)@),
            ref_pairs(old(refs)@),
        ),
{
    if !(starts_word_exec(tc, pos) && ends_word_exec(tc, end)) || overlaps_exec(spans, pos, end) {
        return ;
    }
    let tail = if end <= tc.len() {
        copy_range(tc, end, tc.len())
    } else {
        Vec::new()
    };
    assert(tail@ =~= tail_from(tc@, end as int));
    let cc = chars_of(canon);
    let ghost old_spans = spans@;
    let ghost old_refs = refs@;
    match parse_chapter_verse(&string_of(&tail)) {
        Some(r) => {
            let mut reference = chars_of(canon);
            reference.push(' ');
            push_str(&mut reference, r.as_str());
            proof {
                reveal_strlit(" ");
                assert(reference@ =~= canon@ + " "@ + r@);
            }
            spans.push((pos, end));
            refs.push(
                ScriptureRef {
                    book: string_of(&cc),
                    reference: string_of(&reference),
                    timestamp_ms: ts,
                },
            );
            assert(span_view(spans@) =~= span_view(old_spans).push((pos as int, end as int)));
            assert(ref_pairs(refs@) =~= ref_pairs(old_refs).push((canon@, canon@ + " "@ + r@)));
        },
        None => {
            if !is_ambiguous_book(&cc) && book_intro_exec(tc, pos) {
                spans.push((pos, end));
                refs.push(
                    ScriptureRef { book: string_of(&cc), reference: string_of(&cc), timestamp_ms: ts },
                );
                assert(span_view(spans@) =~= span_view(old_spans).push((pos as int, end as int)));
                assert(ref_pairs(refs@) =~= ref_pairs(old_refs).push((canon@, canon@)));
            }
        },
    }
}

fn place_insert_pos_exec(sp: &Vec<(usize, usize)>, rs: &Vec<ScriptureRef>, p: usize) -> (j:
    usize)
    requires
        sp@.len() == rs@.len(),
    ensures
        j as int == place_insert_pos(placed_refs(span_view(sp@), ref_pairs(rs@)), p as int, 0),
        j <= rs@.len(),
{
    let ghost s = placed_refs(span_view(sp@), ref_pairs(rs@));
    let mut j: usize = 0;
    while j < sp.len()
        invariant
            j <= sp@.len(),
            sp@.len() == rs@.len(),
            s == placed_refs(span_view(sp@), ref_pairs(rs@)),
            place_insert_pos(s, p as int, 0) == place_insert_pos(s, p as int, j as int),
        decreases sp@.len() - j,
    {
        assert(s[j as int].0 == sp@[j as int].0);
        if p < sp[j].0 {
            return j;
        }
        j += 1;
    }
    j
}

fn sort_by_place_exec(sp: &Vec<(usize, usize)>, v: &Vec<ScriptureRef>, ts: u64) -> (r: (
    Vec<(usize, usize)>,
    Vec<ScriptureRef>,
))
    requires
        sp@.len() == v@.len(),
        all_at(v@, ts),
    ensures
        r.0@.len() == r.1@.len(),
        all_at(r.1@, ts),
        placed_refs(span_view(r.0@), ref_pairs(r.1@)) == sort_by_place(
            placed_refs(span_view(sp@), ref_pairs(v@)),
        ),
{
    let ghost s = placed_refs(span_view(sp@), ref_pairs(v@));
    let mut out_sp: Vec<(usize, usize)> = Vec::new();
    let mut out: Vec<ScriptureRef> = Vec::new();
    let mut i: usize = 0;
    assert(placed_refs(span_view(out_sp@), ref_pairs(out@)) =~= sort_by_place(s.take(0)));
    while i < v.len()
        invariant
            i <= v@.len(),
            sp@.len() == v@.len(),
            out_sp@.len() == out@.len(),
            s == placed_refs(span_view(sp@), ref_pairs(v@)),
            all_at(v@, ts),
            all_at(out@, ts),
            placed_refs(span_view(out_sp@), ref_pairs(out@)) == sort_by_place(s.take(i as int)),
        decreases v@.len() - i,
    {
        let x = v[i].copied();
        let p = sp[i];
        let j = place_insert_pos_exec(&out_sp, &out, p.0);
        let ghost old_sp = out_sp@;
        let ghost old_out = out@;
        out_sp.insert(j, p);
        out.insert(j, x);
        proof {
            assert(s.take(i + 1).drop_last() =~= s.take(i as int));
            assert(s.take(i + 1).last() == s[i as int]);
            let before = placed_refs(span_view(old_sp), ref_pairs(old_out));
            let after = placed_refs(span_view(out_sp@), ref_pairs(out@));
            assert forall|k: int| 0 <= k < after.len() implies #[trigger] after[k] == before.insert(
                j as int,
                s[i as int],
            )[k] by {
                if k < j {
                    assert(out_sp@[k] == old_sp[k] && out@[k] == old_out[k]);
                } else if k > j {
                    assert(out_sp@[k] == old_sp[k - 1] && out@[k] == old_out[k - 1]);
                }
            }
            assert(after =~= before.insert(j as int, s[i as int]));
            assert forall|k: int| 0 <= k < out@.len() implies (#[trigger] out@[k]).timestamp_ms
                == ts by {
                if k < j {
                    assert(out@[k] == old_out[k]);
                } else if k > j {
                    assert(out@[k] == old_out[k - 1]);
                }
            }
        }
        i += 1;
    }
    assert(s.take(v@.len() as int) =~= s);
    (out_sp, out)
}

fn repeats_earlier_exec(sp: &Vec<(usize, usize)>, v: &Vec<ScriptureRef>, i: usize) -> (r: bool)
    requires
        sp@.len() == v@.len(),
        i < v@.len(),
    ensures
        r == repeats_earlier(placed_refs(span_view(sp@), ref_pairs(v@)), i as int),
{
    let ghost s = placed_refs(span_view(sp@), ref_pairs(v@));
    let key = chars_of(v[i].reference.as_str());
    let mut k: usize = 0;
    while k < i
        invariant
            k <= i,
            i < v@.len(),
            sp@.len() == v@.len(),
            s == placed_refs(span_view(sp@), ref_pairs(v@)),
            key@ == s[i as int].1.1,
            forall|m: int| 0 <= m < k ==> (#[trigger] s[m]).1.1 != s[i as int].1.1,
        decreases i - k,
    {
        if same_chars(&chars_of(v[k].reference.as_str()), &key) {
            assert(s[k as int].1.1 == s[i as int].1.1);
            return true;
        }
        k += 1;
    }
    false
}

fn first_occurrences_exec(sp: &Vec<(usize, usize)>, v: &Vec<ScriptureRef>, ts: u64) -> (r: Vec<
    ScriptureRef,
>)
    requires
        sp@.len() == v@.len(),
        all_at(v@, ts),
    ensures
        all_at(r@, ts),
        ref_pairs(r@) == first_occurrences(placed_refs(span_view(sp@), ref_pairs(v@))).map_values(
            |x: (int, (Seq<char>, Seq<char>))| x.1,
        ),
{
    let ghost s = placed_refs(span_view(sp@), ref_pairs(v@));
    let mut out_sp: Vec<(usize, usize)> = Vec::new();
    let mut out: Vec<ScriptureRef> = Vec::new();
    let mut i: usize = 0;
    assert(placed_refs(span_view(out_sp@), ref_pairs(out@)) =~= first_occurrences(s.take(0)));
    while i < v.len()
        invariant
            i <= v@.len(),
            sp@.len() == v@.len(),
            out_sp@.len() == out@.len(),
            s == placed_refs(span_view(sp@), ref_pairs(v@)),
            all_at(v@, ts),
            all_at(out@, ts),
            placed_refs(span_view(out_sp@), ref_pairs(out@)) == first_occurrences(
                s.take(i as int),
            ),
        decreases v@.len() - i,
    {
        let ghost t = s.take(i + 1);
        proof {
            assert(t.drop_last() =~= s.take(i as int));
            assert(t.last() == s[i as int]);
        }
        let rep = repeats_earlier_exec(sp, v, i);
        proof {
            if repeats_earlier(s, i as int) {
                let k = choose|k: int| 0 <= k < i && (#[trigger] s[k]).1.1 == s[i as int].1.1;
                assert(t[k] == s[k]);
            }
            if repeats_earlier(t, i as int) {
                let k = choose|k: int| 0 <= k < i && (#[trigger] t[k]).1.1 == t[i as int].1.1;
                assert(t[k] == s[k]);
            }
        }
        if !rep {
            let ghost old_sp = out_sp@;
            let ghost old_out = out@;
            out_sp.push(sp[i]);
            out.push(v[i].copied());
            proof {
                assert(placed_refs(span_view(out_sp@), ref_pairs(out@)) =~= placed_refs(
                    span_view(old_sp),
                    ref_pairs(old_out),
                ).push(s[i as int]));
                assert forall|k: int| 0 <= k < out@.len() implies (#[trigger] out@[k]).timestamp_ms
                    == ts by {
                    if k < old_out.len() {
                        assert(out@[k] == old_out[k]);
                    }
                }
            }
        }
        i += 1;
    }
    assert(s.take(v@.len() as int) =~= s);
    let ghost q = placed_refs(span_view(out_sp@), ref_pairs(out@));
    assert(ref_pairs(out@) =~= q.map_values(|x: (int, (Seq<char>, Seq<char>))| x.1));
    out
}

/// Detects scripture references like "John 3:16", "Romans 8:28", "Psalm 23",
/// "First Corinthians 13:4-8" in text; each carries the given timestamp.
pub fn detect_scripture_references(text: &str, timestamp_ms: u64) -> (r: Vec<ScriptureRef>)
    ensures
        ref_pairs(r@) == scripture_refs_spec(text@),
        all_at(r@, timestamp_ms),
{
    let tc = chars_of(text);
    let lc = chars_of(&to_lowercase(text));
    let ghost lower = lowercase_of(text@);
    let mut spans: Vec<(usize, usize)> = Vec::new();
    let mut refs: Vec<ScriptureRef> = Vec::new();
    let mut k: usize = 0;
    assert(span_view(spans@) =~= seq![]);
    assert(ref_pairs(refs@) =~= seq![]);
    while k < 103
        invariant
            k <= 103,
            tc@ == text@,
            lc@ == lower,
            lower == lowercase_of(text@),
            all_at(refs@, timestamp_ms),
            spans@.len() == refs@.len(),
            scan_books(text@, lower, 0, seq![], seq![]) == scan_books(
                text@,
                lower,
                k as int,
                span_view(spans@),
                ref_pairs(refs@),
            ),
        decreases 103 - k,
    {
        let (pat_s, canon) = book_pattern(k);
        let pat = chars_of(pat_s);
        let mut idx: usize = 0;
        loop
            invariant
                k < 103,
                idx <= lc@.len(),
                tc@ == text@,
                lc@ == lower,
                pat@ == book_pattern_spec(k as int).0,
                canon@ == book_pattern_spec(k as int).1,
                all_at(refs@, timestamp_ms),
                spans@.len() == refs@.len(),
                scan_books(text@, lower, 0, seq![], seq![]) == scan_books(
                    text@,
                    lower,
                    k + 1,
                    scan_pattern(
                        text@,
                        lower,
                        k as int,
                        idx as int,
                        span_view(spans@),
                        ref_pairs(refs@),
                    ).0,
                    scan_pattern(
                        text@,
                        lower,
                        k as int,
                        idx as int,
                        span_view(spans@),
                        ref_pairs(refs@),
                    ).1,
                ),
            ensures
                all_at(refs@, timestamp_ms),
                spans@.len() == refs@.len(),
                scan_books(text@, lower, 0, seq![], seq![]) == scan_books(
                    text@,
                    lower,
                    k + 1,
                    span_view(spans@),
                    ref_pairs(refs@),
                ),
            decreases lc@.len() - idx,
        {
            match find_from_exec(&lc, &pat, idx) {
                None => {
                    break ;
                },
                Some(pos) => {
                    if pat.len() == 0 {
                        break ;
                    }
                    let end = pos + pat.len();
                    take_match_exec(&tc, pos, end, canon, &mut spans, &mut refs, timestamp_ms);
                    idx = end;
                },
            }
        }
        k += 1;
    }
    let (sorted_spans, sorted) = sort_by_place_exec(&spans, &refs, timestamp_ms);
    proof {
        reveal(placed_scripture_refs);
    }
    first_occurrences_exec(&sorted_spans, &sorted, timestamp_ms)
}


// ---------------------------------------------------------------------------
// What holds of every list of scripture references.
// ---------------------------------------------------------------------------

/// Each reference is placed no later in the text than the next one.
pub open spec fn in_place_order(s: Seq<(int, (Seq<char>, Seq<char>))>) -> bool {
    forall|i: int, j: int| 0 <= i < j < s.len() ==> (#[trigger] s[i]).0 <= (#[trigger] s[j]).0
}

/// No reference text occurs twice.
pub open spec fn distinct_refs(s: Seq<(int, (Seq<char>, Seq<char>))>) -> bool {
    forall|i: int, j: int|
        0 <= i < j < s.len() ==> (#[trigger] s[i]).1.1 != (#[trigger] s[j]).1.1
}

/// Each reference text begins with its book name.
pub open spec fn refs_name_books(s: Seq<(Seq<char>, Seq<char>)>) -> bool {
    forall|i: int| 0 <= i < s.len() ==> starts_with_seq((#[trigger] s[i]).1, s[i].0)
}

proof fn lemma_place_insert_pos(s: Seq<(int, (Seq<char>, Seq<char>))>, p: int, j: int)
    requires
        0 <= j <= s.len(),
    ensures
        j <= place_insert_pos(s, p, j) <= s.len(),
        forall|m: int| j <= m < place_insert_pos(s, p, j) ==> (#[trigger] s[m]).0 <= p,
        place_insert_pos(s, p, j) < s.len() ==> p < s[place_insert_pos(s, p, j)].0,
    decreases s.len() - j,
{
    if j < s.len() && p >= s[j].0 {
        lemma_place_insert_pos(s, p, j + 1);
    }
}

proof fn lemma_sort_by_place(s: Seq<(int, (Seq<char>, Seq<char>))>)
    ensures
        sort_by_place(s).len() == s.len(),
        in_place_order(sort_by_place(s)),
        forall|i: int| 0 <= i < s.len() ==> s.contains(#[trigger] sort_by_place(s)[i]),
    decreases s.len(),
{
    if s.len() > 0 {
        let t = sort_by_place(s.drop_last());
        lemma_sort_by_place(s.drop_last());
        let x = s.last();
        let p = place_insert_pos(t, x.0, 0);
        lemma_place_insert_pos(t, x.0, 0);
        let u = t.insert(p, x);
        assert forall|i: int, j: int| 0 <= i < j < u.len() implies (#[trigger] u[i]).0 <= (
        #[trigger] u[j]).0 by {
            if j < p {
                assert(u[i] == t[i] && u[j] == t[j]);
            } else if j == p {
                assert(u[i] == t[i]);
            } else if i < p {
                assert(u[i] == t[i] && u[j] == t[j - 1]);
            } else if i == p {
                assert(u[j] == t[j - 1]);
                if j - 1 > p {
                    assert(t[p].0 <= t[j - 1].0);
                }
            } else {
                assert(u[i] == t[i - 1] && u[j] == t[j - 1]);
            }
        }
        assert forall|i: int| 0 <= i < s.len() implies s.contains(#[trigger] u[i]) by {
            if i < p {
                assert(u[i] == t[i]);
                assert(s.drop_last().contains(t[i]));
            } else if i == p {
                assert(s[s.len() - 1] == x);
            } else {
                assert(u[i] == t[i - 1]);
                assert(s.drop_last().contains(t[i - 1]));
            }
        }
    }
}

proof fn lemma_first_occurrences(s: Seq<(int, (Seq<char>, Seq<char>))>)
    requires
        in_place_order(s),
    ensures
        in_place_order(first_occurrences(s)),
        distinct_refs(first_occurrences(s)),
        forall|i: int|
            0 <= i < first_occurrences(s).len() ==> s.contains(#[trigger] first_occurrences(s)[i]),
    decreases s.len(),
{
    if s.len() > 0 {
        let s0 = s.drop_last();
        let n = s.len();
        assert(in_place_order(s0)) by {
            assert forall|i: int, j: int| 0 <= i < j < s0.len() implies (#[trigger] s0[i]).0 <= (
            #[trigger] s0[j]).0 by {
                assert(s0[i] == s[i] && s0[j] == s[j]);
            }
        }
        lemma_first_occurrences(s0);
        let d = first_occurrences(s0);
        assert forall|i: int| 0 <= i < d.len() implies s.contains(#[trigger] d[i]) by {
            assert(s0.contains(d[i]));
            let m = choose|m: int| 0 <= m < s0.len() && s0[m] == d[i];
            assert(s[m] == d[i]);
        }
        if !repeats_earlier(s, n - 1) {
            let e = d.push(s.last());
            assert forall|i: int| 0 <= i < d.len() implies (#[trigger] d[i]).0 <= s.last().0
                && d[i].1.1 != s.last().1.1 by {
                assert(s0.contains(d[i]));
                let m = choose|m: int| 0 <= m < s0.len() && s0[m] == d[i];
                assert(s[m] == d[i]);
                assert(s[m].0 <= s[n - 1].0);
                if s[m].1.1 == s[n - 1].1.1 {
                    assert(repeats_earlier(s, n - 1));
                }
            }
            assert forall|i: int, j: int| 0 <= i < j < e.len() implies (#[trigger] e[i]).0 <= (
            #[trigger] e[j]).0 && e[i].1.1 != e[j].1.1 by {
                assert(e[i] == d[i]);
                if j < d.len() {
                    assert(e[j] == d[j]);
                } else {
                    assert(e[j] == s.last());
                }
            }
            assert forall|i: int| 0 <= i < e.len() implies s.contains(#[trigger] e[i]) by {
                if i < d.len() {
                    assert(e[i] == d[i]);
                } else {
                    assert(s[n - 1] == e[i]);
                }
            }
        }
    }
}

proof fn lemma_take_match_names(
    text: Seq<char>,
    pos: int,
    end: int,
    canon: Seq<char>,
    spans: Seq<(int, int)>,
    refs: Seq<(Seq<char>, Seq<char>)>,
)
    requires
        refs_name_books(refs),
    ensures
        refs_name_books(take_match(text, pos, end, canon, spans, refs).1),
{
    let t = take_match(text, pos, end, canon, spans, refs).1;
    assert forall|i: int| 0 <= i < t.len() implies starts_with_seq((#[trigger] t[i]).1, t[i].0) by {
        if i < refs.len() {
            assert(t[i] == refs[i]);
        } else {
            match chapter_verse_spec(tail_from(text, end)) {
                Some(r) => {
                    assert((canon + " "@ + r).take(canon.len() as int) =~= canon);
                },
                None => {
                    assert(canon.take(canon.len() as int) =~= canon);
                },
            }
        }
    }
}

proof fn lemma_scan_pattern_names(
    text: Seq<char>,
    lower: Seq<char>,
    k: int,
    idx: int,
    spans: Seq<(int, int)>,
    refs: Seq<(Seq<char>, Seq<char>)>,
)
    requires
        refs_name_books(refs),
    ensures
        refs_name_books(scan_pattern(text, lower, k, idx, spans, refs).1),
    decreases lower.len() + 1 - idx,
{
    let pat = book_pattern_spec(k).0;
    match find_from(lower, pat, idx) {
        None => {},
        Some(pos) => {
            let end = pos + pat.len();
            if !(pat.len() == 0 || pos < idx || end > lower.len()) {
                let t = take_match(text, pos, end, book_pattern_spec(k).1, spans, refs);
                lemma_take_match_names(text, pos, end, book_pattern_spec(k).1, spans, refs);
                lemma_scan_pattern_names(text, lower, k, end, t.0, t.1);
            }
        },
    }
}

proof fn lemma_scan_books_names(
    text: Seq<char>,
    lower: Seq<char>,
    k: int,
    spans: Seq<(int, int)>,
    refs: Seq<(Seq<char>, Seq<char>)>,
)
    requires
        refs_name_books(refs),
    ensures
        refs_name_books(scan_books(text, lower, k, spans, refs).1),
    decreases book_pattern_count() - k,
{
    if 0 <= k < book_pattern_count() {
        let t = scan_pattern(text, lower, k, 0, spans, refs);
        lemma_scan_pattern_names(text, lower, k, 0, spans, refs);
        lemma_scan_books_names(text, lower, k + 1, t.0, t.1);
    }
}

/// The references detected in any text come in the order in which they appear in it (by the
/// place where each one's book name starts), no reference text is reported twice, and each
/// reference text begins with the name of its book.
pub proof fn lemma_scripture_refs_ordered_and_named(text: Seq<char>)
    ensures
        scripture_refs_spec(text) == placed_scripture_refs(text).map_values(
            |x: (int, (Seq<char>, Seq<char>))| x.1,
        ),
        in_place_order(placed_scripture_refs(text)),
        distinct_refs(placed_scripture_refs(text)),
        refs_name_books(scripture_refs_spec(text)),
{
    reveal(placed_scripture_refs);
    let f = found_refs(text);
    let fp = found_placed(text);
    let sorted = sort_by_place(fp);
    lemma_scan_books_names(text, lowercase_of(text), 0, seq![], seq![]);
    lemma_sort_by_place(fp);
    lemma_first_occurrences(sorted);
    let q = placed_scripture_refs(text);
    let r = scripture_refs_spec(text);
    assert forall|i: int| 0 <= i < r.len() implies starts_with_seq((#[trigger] r[i]).1, r[i].0) by {
        assert(r[i] == q[i].1);
        assert(sorted.contains(q[i]));
        let j = choose|j: int| 0 <= j < sorted.len() && sorted[j] == q[i];
        assert(fp.contains(sorted[j]));
        let m = choose|m: int| 0 <= m < fp.len() && fp[m] == sorted[j];
        assert(fp[m].1 == f[m]);
        assert(starts_with_seq(f[m].1, f[m].0));
    }
}


// ---------------------------------------------------------------------------
// Custom vocabulary.
// ---------------------------------------------------------------------------

/// `s[a..b]` with both ends clamped into the sequence.
pub open spec fn clamp_slice(s: Seq<char>, a: int, b: int) -> Seq<char> {
    let a2 = if a < 0 {
        0
    } else if a > s.len() {
        s.len() as int
    } else {
        a
    };
    let b2 = if b < a2 {
        a2
    } else if b > s.len() {
        s.len() as int
    } else {
        b
    };
    s.subrange(a2, b2)
}

/// `s` split at every `c` (`str::split` with a character pattern).
pub open spec fn split_char(s: Seq<char>, c: char) -> Seq<Seq<char>>
    decreases s.len(),
{
    if s.len() == 0 {
        seq![seq![]]
    } else {
        let r = split_char(s.drop_last(), c);
        if s.last() == c {
            r.push(seq![])
        } else {
            r.update(r.len() - 1, r.last().push(s.last()))
        }
    }
}

/// The pieces trimmed, the empty ones dropped.
pub open spec fn nonempty_trimmed(ps: Seq<Seq<char>>) -> Seq<Seq<char>>
    decreases ps.len(),
{
    if ps.len() == 0 {
        seq![]
    } else {
        let r = nonempty_trimmed(ps.drop_last());
        let t = trim_seq(ps.last());
        if t.len() > 0 {
            r.push(t)
        } else {
            r
        }
    }
}

/// The terms of a comma-separated vocabulary list.
pub open spec fn vocab_terms(csv: Seq<char>) -> Seq<Seq<char>> {
    nonempty_trimmed(split_char(csv, ','))
}

/// Replaces, from index `i` on, every occurrence of the lowercase term `lt` in the lowercase
/// text by `term`, copying the rest from the original text at the same positions.
pub open spec fn ci_replace_from(
    text: Seq<char>,
    lower: Seq<char>,
    lt: Seq<char>,
    term: Seq<char>,
    i: int,
) -> Seq<char>
    decreases lower.len() + 1 - i,
{
    if i < 0 || i > lower.len() || lt.len() == 0 {
        clamp_slice(text, i, text.len() as int)
    } else {
        match find_from(lower, lt, i) {
            None => clamp_slice(text, i, text.len() as int),
            Some(k) => if k < i || k + lt.len() > lower.len() {
                clamp_slice(text, i, text.len() as int)
            } else {
                clamp_slice(text, i, k) + term + ci_replace_from(
                    text,
                    lower,
                    lt,
                    term,
                    k + lt.len(),
                )
            },
        }
    }
}

/// Case-insensitive replacement of one term, written as the term is spelled.
pub open spec fn vocab_step(text: Seq<char>, term: Seq<char>) -> Seq<char> {
    let lt = lowercase_of(term);
    if lt.len() == 0 {
        text
    } else {
        ci_replace_from(text, lowercase_of(text), lt, term, 0)
    }
}

/// All the terms applied in order.
pub open spec fn apply_terms(text: Seq<char>, terms: Seq<Seq<char>>) -> Seq<char>
    decreases terms.len(),
{
    if terms.len() == 0 {
        text
    } else {
        vocab_step(apply_terms(text, terms.drop_last()), terms.last())
    }
}

pub(crate) fn clamp_slice_exec(s: &Vec<char>, a: usize, b: usize) -> (r: Vec<char>)
    ensures
        r@ == clamp_slice(s@, a as int, b as int),
{
    let a2 = if a > s.len() {
        s.len()
    } else {
        a
    };
    let b2 = if b < a2 {
        a2
    } else if b > s.len() {
        s.len()
    } else {
        b
    };
    copy_range(s, a2, b2)
}

pub(crate) fn split_char_exec(s: &Vec<char>, c: char) -> (r: Vec<Vec<char>>)
    ensures
        views(r@) == split_char(s@, c),
{
    let mut done: Vec<Vec<char>> = Vec::new();
    let mut cur: Vec<char> = Vec::new();
    let mut i: usize = 0;
    assert(views(done@).push(cur@) =~= split_char(s@.take(0), c));
    while i < s.len()
        invariant
            i <= s@.len(),
            views(done@).push(cur@) == split_char(s@.take(i as int), c),
        decreases s@.len() - i,
    {
        assert(s@.take(i + 1).drop_last() =~= s@.take(i as int));
        assert(s@.take(i + 1).last() == s@[i as int]);
        let ghost before = views(done@).push(cur@);
        if s[i] == c {
            done.push(cur);
            cur = Vec::new();
            assert(views(done@).push(cur@) =~= before.push(seq![]));
        } else {
            cur.push(s[i]);
            assert(views(done@).push(cur@) =~= before.update(
                before.len() - 1,
                before.last().push(s@[i as int]),
            ));
        }
        i += 1;
    }
    assert(s@.take(s@.len() as int) =~= s@);
    done.push(cur);
    done
}

fn vocab_terms_exec(csv: &str) -> (r: Vec<Vec<char>>)
    ensures
        views(r@) == vocab_terms(csv@),
{
    let pieces = split_char_exec(&chars_of(csv), ',');
    let ghost ps = views(pieces@);
    let mut out: Vec<Vec<char>> = Vec::new();
    let mut i: usize = 0;
    while i < pieces.len()
        invariant
            i <= pieces@.len(),
            ps == views(pieces@),
            views(out@) == nonempty_trimmed(ps.take(i as int)),
        decreases pieces@.len() - i,
    {
        assert(ps.take(i + 1).drop_last() =~= ps.take(i as int));
        assert(ps.take(i + 1).last() == pieces@[i as int]@);
        let t = trim(&pieces[i]);
        if t.len() > 0 {
            let ghost before = views(out@);
            out.push(t);
            assert(views(out@) =~= before.push(t@));
        }
        i += 1;
    }
    assert(ps.take(pieces@.len() as int) =~= ps);
    out
}

fn ci_replace_exec(text: &Vec<char>, lower: &Vec<char>, lt: &Vec<char>, term: &Vec<char>) -> (r:
    Vec<char>)
    requires
        lt@.len() > 0,
    ensures
        r@ == ci_replace_from(text@, lower@, lt@, term@, 0),
{
    let mut res: Vec<char> = Vec::new();
    let mut i: usize = 0;
    loop
        invariant
            i <= lower@.len(),
            lt@.len() > 0,
            ci_replace_from(text@, lower@, lt@, term@, 0) == res@ + ci_replace_from(
                text@,
                lower@,
                lt@,
                term@,
                i as int,
            ),
        decreases lower@.len() - i,
    {
        match find_from_exec(lower, lt, i) {
            None => {
                let rest = clamp_slice_exec(text, i, text.len());
                push_all(&mut res, &rest);
                return res;
            },
            Some(k) => {
                let a = clamp_slice_exec(text, i, k);
                let ghost old_res = res@;
                push_all(&mut res, &a);
                push_all(&mut res, term);
                assert(old_res + (a@ + term@ + ci_replace_from(
                    text@,
                    lower@,
                    lt@,
                    term@,
                    k + lt@.len(),
                )) =~= res@ + ci_replace_from(text@, lower@, lt@, term@, k + lt@.len()));
                i = k + lt.len();
            },
        }
    }
}

fn vocab_step_exec(text: &Vec<char>, term: &Vec<char>) -> (r: Vec<char>)
    ensures
        r@ == vocab_step(text@, term@),
{
    let lt = chars_of(&to_lowercase(&string_of(term)));
    if lt.len() == 0 {
        return copy_range(text, 0, text.len());
    }
    let lower = chars_of(&to_lowercase(&string_of(text)));
    ci_replace_exec(text, &lower, &lt, term)
}

/// Applies user custom vocabulary replacements to raw transcript segments: each
/// comma-separated term replaces, case-insensitively, every occurrence of itself, so that
/// it is written as the user spelled it.
pub fn apply_custom_vocabulary(segments: &mut [TranscriptSegment], custom_vocab_csv: &str)
    ensures
        final(segments)@.len() == old(segments)@.len(),
        forall|i: int|
            0 <= i < old(segments)@.len() ==> (#[trigger] final(segments)@[i]).start_ms == old(
                segments,
            )@[i].start_ms && final(segments)@[i].end_ms == old(segments)@[i].end_ms
                && final(segments)@[i].text@ == apply_terms(
                old(segments)@[i].text@,
                vocab_terms(custom_vocab_csv@),
            ),
{
    let terms = vocab_terms_exec(custom_vocab_csv);
    let ghost ts = views(terms@);
    let mut i: usize = 0;
    while i < segments.len()
        invariant
            i <= segments@.len(),
            segments@.len() == old(segments)@.len(),
            ts == views(terms@),
            ts == vocab_terms(custom_vocab_csv@),
            forall|j: int|
                i <= j < segments@.len() ==> #[trigger] segments@[j] == old(segments)@[j],
            forall|j: int|
                0 <= j < i ==> (#[trigger] segments@[j]).start_ms == old(segments)@[j].start_ms
                    && segments@[j].end_ms == old(segments)@[j].end_ms && segments@[j].text@
                    == apply_terms(old(segments)@[j].text@, ts),
        decreases segments@.len() - i,
    {
        let mut text = chars_of(segments[i].text.as_str());
        let mut t: usize = 0;
        while t < terms.len()
            invariant
                t <= terms@.len(),
                ts == views(terms@),
                text@ == apply_terms(segments@[i as int].text@, ts.take(t as int)),
            decreases terms@.len() - t,
        {
            assert(ts.take(t + 1).drop_last() =~= ts.take(t as int));
            assert(ts.take(t + 1).last() == terms@[t as int]@);
            text = vocab_step_exec(&text, &terms[t]);
            t += 1;
        }
        assert(ts.take(terms@.len() as int) =~= ts);
        let seg = TranscriptSegment {
            start_ms: segments[i].start_ms,
            end_ms: segments[i].end_ms,
            text: string_of(&text),
        };
        segments[i] = seg;
        i += 1;
    }
}


// ---------------------------------------------------------------------------
// Paragraphs and sections.
// ---------------------------------------------------------------------------

/// A paragraph as values: start, end, text, segments, scripture references.
pub struct ParaV {
    pub start: nat,
    pub end: nat,
    pub text: Seq<char>,
    pub segs: Seq<(nat, nat, Seq<char>)>,
    pub refs: Seq<(Seq<char>, Seq<char>, nat)>,
}

/// A section as values: title, start, end, paragraphs.
pub struct SecV {
    pub title: Seq<char>,
    pub start: nat,
    pub end: nat,
    pub paras: Seq<ParaV>,
}

pub open spec fn para_view(p: Paragraph) -> ParaV {
    ParaV {
        start: p.start_ms as nat,
        end: p.end_ms as nat,
        text: p.text@,
        segs: segs_view(p.segments@),
        refs: refs_view(p.scripture_refs@),
    }
}

pub open spec fn paras_view(s: Seq<Paragraph>) -> Seq<ParaV> {
    s.map_values(|p: Paragraph| para_view(p))
}

pub open spec fn sec_view(s: Section) -> SecV {
    SecV {
        title: s.title@,
        start: s.start_ms as nat,
        end: s.end_ms as nat,
        paras: paras_view(s.paragraphs@),
    }
}

pub open spec fn secs_view(s: Seq<Section>) -> Seq<SecV> {
    s.map_values(|x: Section| sec_view(x))
}

/// The scripture references of a text, each stamped with `ts`.
pub open spec fn stamped_refs(text: Seq<char>, ts: nat) -> Seq<(Seq<char>, Seq<char>, nat)> {
    scripture_refs_spec(text).map_values(|p: (Seq<char>, Seq<char>)| (p.0, p.1, ts))
}

/// A paragraph sealed from its start, end, text and segments.
pub open spec fn mk_para(start: nat, end: nat, text: Seq<char>, segs: Seq<(nat, nat, Seq<char>)>) -> ParaV {
    ParaV { start, end, text, segs, refs: stamped_refs(text, start) }
}

/// Where the grouping stands after some segments.
pub struct StructState {
    pub sections: Seq<SecV>,
    pub title: Seq<char>,
    pub sec_start: nat,
    pub paras: Seq<ParaV>,
    pub para_segs: Seq<(nat, nat, Seq<char>)>,
    pub para_text: Seq<char>,
    pub para_start: nat,
    pub refs: Seq<(Seq<char>, Seq<char>, nat)>,
}

/// The text ends in sentence punctuation.
pub open spec fn ends_sentence(t: Seq<char>) -> bool {
    let e = trim_end_seq(t);
    e.len() > 0 && (e.last() == '.' || e.last() == '!' || e.last() == '?')
}

/// A new paragraph starts after segment `i`: at the last segment, after a pause of more than
/// 1.2 s, after a pause of more than 0.8 s that follows the end of a sentence, or before a
/// segment that opens a section.
pub open spec fn breaks_after(segs: Seq<(nat, nat, Seq<char>)>, i: int) -> bool {
    if i + 1 < segs.len() {
        let pause = segs[i + 1].0 - segs[i].1;
        pause > 1200 || (ends_sentence(segs[i].2) && pause > 800) || section_title_spec(
            segs[i + 1].2,
        ) is Some
    } else {
        true
    }
}

/// The state once a segment that opens a section with heading `title` starts it.
pub open spec fn open_section(st: StructState, seg: (nat, nat, Seq<char>), title: Seq<char>) -> StructState {
    let sealed = st.para_text.len() > 0;
    let paras1 = if sealed {
        let end = if st.para_segs.len() > 0 {
            st.para_segs.last().1
        } else {
            seg.0
        };
        st.paras.push(mk_para(st.para_start, end, st.para_text, st.para_segs))
    } else {
        st.paras
    };
    let sections1 = if paras1.len() > 0 {
        st.sections.push(SecV { title: st.title, start: st.sec_start, end: paras1.last().end, paras: paras1 })
    } else {
        st.sections
    };
    StructState {
        sections: sections1,
        title,
        sec_start: seg.0,
        paras: if paras1.len() > 0 {
            seq![]
        } else {
            paras1
        },
        para_segs: if sealed {
            seq![]
        } else {
            st.para_segs
        },
        para_text: seq![],
        para_start: seg.0,
        refs: st.refs,
    }
}

/// The state after segment `i`.
pub open spec fn struct_step(segs: Seq<(nat, nat, Seq<char>)>, i: int, st: StructState) -> StructState {
    let seg = segs[i];
    let st0 = StructState { refs: st.refs + stamped_refs(seg.2, seg.0), ..st };
    let st1 = match section_title_spec(seg.2) {
        Some(t) => open_section(st0, seg, t),
        None => st0,
    };
    let psegs = st1.para_segs.push(seg);
    let ptext = (if st1.para_text.len() > 0 {
        st1.para_text.push(' ')
    } else {
        st1.para_text
    }) + trim_seq(seg.2);
    if breaks_after(segs, i) {
        StructState {
            paras: st1.paras.push(mk_para(st1.para_start, seg.1, ptext, psegs)),
            para_segs: seq![],
            para_text: seq![],
            para_start: if i + 1 < segs.len() {
                segs[i + 1].0
            } else {
                st1.para_start
            },
            ..st1
        }
    } else {
        StructState { para_segs: psegs, para_text: ptext, ..st1 }
    }
}

/// The state after segments `i..`.
pub open spec fn struct_run(segs: Seq<(nat, nat, Seq<char>)>, i: int, st: StructState) -> StructState
    decreases segs.len() - i,
{
    if i < 0 || i >= segs.len() {
        st
    } else {
        struct_run(segs, i + 1, struct_step(segs, i, st))
    }
}

/// The sections once the last paragraphs are sealed into the last section.
pub open spec fn final_sections(st: StructState) -> Seq<SecV> {
    if st.paras.len() > 0 {
        st.sections.push(SecV { title: st.title, start: st.sec_start, end: st.paras.last().end, paras: st.paras })
    } else {
        st.sections
    }
}

/// The segments with the custom vocabulary applied to their text.
pub open spec fn vocab_segs(raw: Seq<(nat, nat, Seq<char>)>, csv: Seq<char>) -> Seq<(nat, nat, Seq<char>)> {
    raw.map_values(|s: (nat, nat, Seq<char>)| (s.0, s.1, apply_terms(s.2, vocab_terms(csv))))
}

pub open spec fn struct_init(segs: Seq<(nat, nat, Seq<char>)>) -> StructState {
    StructState {
        sections: seq![],
        title: "Opening & Introduction"@,
        sec_start: segs[0].0,
        paras: seq![],
        para_segs: seq![],
        para_text: seq![],
        para_start: segs[0].0,
        refs: seq![],
    }
}

/// The structured transcript as values: sections and every scripture reference.
pub open spec fn structure_spec(raw: Seq<(nat, nat, Seq<char>)>, csv: Seq<char>) -> (Seq<SecV>, Seq<(Seq<char>, Seq<char>, nat)>) {
    if raw.len() == 0 {
        (seq![], seq![])
    } else {
        let segs = vocab_segs(raw, csv);
        let st = struct_run(segs, 0, struct_init(segs));
        (final_sections(st), st.refs)
    }
}


/// The grouping state held by the executable code, as values.
pub open spec fn state_view(
    sections: Seq<Section>,
    title: Seq<char>,
    sec_start: u64,
    paras: Seq<Paragraph>,
    para_segs: Seq<TranscriptSegment>,
    para_text: Seq<char>,
    para_start: u64,
    refs: Seq<ScriptureRef>,
) -> StructState {
    StructState {
        sections: secs_view(sections),
        title,
        sec_start: sec_start as nat,
        paras: paras_view(paras),
        para_segs: segs_view(para_segs),
        para_text,
        para_start: para_start as nat,
        refs: refs_view(refs),
    }
}

proof fn lemma_stamped(r: Seq<ScriptureRef>, text: Seq<char>, ts: u64)
    requires
        ref_pairs(r) == scripture_refs_spec(text),
        all_at(r, ts),
    ensures
        refs_view(r) == stamped_refs(text, ts as nat),
{
    assert(refs_view(r).len() == ref_pairs(r).len());
    assert forall|i: int| 0 <= i < r.len() implies refs_view(r)[i] == stamped_refs(
        text,
        ts as nat,
    )[i] by {
        assert(ref_pairs(r)[i] == (r[i].book@, r[i].reference@));
        assert(r[i].timestamp_ms == ts);
    }
    assert(refs_view(r) =~= stamped_refs(text, ts as nat));
}

fn make_paragraph(start: u64, end: u64, text: &Vec<char>, segs: Vec<TranscriptSegment>) -> (p:
    Paragraph)
    ensures
        para_view(p) == mk_para(start as nat, end as nat, text@, segs_view(segs@)),
{
    let t = string_of(text);
    let refs = detect_scripture_references(t.as_str(), start);
    proof {
        lemma_stamped(refs@, text@, start);
    }
    Paragraph { start_ms: start, end_ms: end, text: t, segments: segs, scripture_refs: refs }
}

pub(crate) fn ends_sentence_exec(t: &str) -> (r: bool)
    ensures
        r == ends_sentence(t@),
{
    let e = trim_end(&chars_of(t));
    e.len() > 0 && (e[e.len() - 1] == '.' || e[e.len() - 1] == '!' || e[e.len() - 1] == '?')
}

fn breaks_after_exec(segments: &Vec<TranscriptSegment>, i: usize) -> (r: bool)
    requires
        i < segments@.len(),
    ensures
        r == breaks_after(segs_view(segments@), i as int),
{
    if i < segments.len() - 1 {
        let seg = &segments[i];
        let next = &segments[i + 1];
        let long_pause = next.start_ms >= seg.end_ms && next.start_ms - seg.end_ms > 1200;
        let short_pause = next.start_ms >= seg.end_ms && next.start_ms - seg.end_ms > 800;
        long_pause || (ends_sentence_exec(seg.text.as_str()) && short_pause)
            || detect_section_title(next.text.as_str()).is_some()
    } else {
        true
    }
}

/// Groups raw segments into natural paragraphs and collapsible sections.
///
/// A new paragraph starts when the silence between segments exceeds 1.2 s, or when a
/// segment ends in sentence punctuation (`.`, `!`, `?`) and the pause exceeds 0.8 s, or
/// before a segment that opens a section. A new section starts at a segment that holds a
/// structural marker (e.g. "Let us pray", "In conclusion"). The custom vocabulary is applied
/// first.
pub fn structure_transcript(raw_segments: &[TranscriptSegment], custom_vocab_csv: &str) -> (r:
    StructuredTranscript)
    ensures
        secs_view(r.sections@) == structure_spec(segs_view(raw_segments@), custom_vocab_csv@).0,
        refs_view(r.scripture_references@) == structure_spec(
            segs_view(raw_segments@),
            custom_vocab_csv@,
        ).1,
{
    if raw_segments.len() == 0 {
        let r = StructuredTranscript { sections: Vec::new(), scripture_references: Vec::new() };
        assert(secs_view(r.sections@) =~= seq![]);
        assert(refs_view(r.scripture_references@) =~= seq![]);
        return r;
    }
    let mut segments = copy_segments(raw_segments);
    apply_custom_vocabulary(segments.as_mut_slice(), custom_vocab_csv);
    let ghost segs = segs_view(segments@);
    assert(segs =~= vocab_segs(segs_view(raw_segments@), custom_vocab_csv@));
    let mut all_refs: Vec<ScriptureRef> = Vec::new();
    let mut sections: Vec<Section> = Vec::new();
    let mut title: String = string_of(&chars_of("Opening & Introduction"));
    let mut sec_start: u64 = segments[0].start_ms;
    let mut paras: Vec<Paragraph> = Vec::new();
    let mut para_segs: Vec<TranscriptSegment> = Vec::new();
    let mut para_text: Vec<char> = Vec::new();
    let mut para_start: u64 = segments[0].start_ms;
    let mut i: usize = 0;
    proof {
        assert(secs_view(sections@) =~= seq![]);
        assert(paras_view(paras@) =~= seq![]);
        assert(segs_view(para_segs@) =~= seq![]);
        assert(refs_view(all_refs@) =~= seq![]);
        assert(state_view(sections@, title@, sec_start, paras@, para_segs@, para_text@, para_start, all_refs@)
            == struct_init(segs));
    }
    while i < segments.len()
        invariant
            i <= segments@.len(),
            segs == segs_view(segments@),
            segs.len() > 0,
            struct_run(segs, 0, struct_init(segs)) == struct_run(
                segs,
                i as int,
                state_view(sections@, title@, sec_start, paras@, para_segs@, para_text@, para_start, all_refs@),
            ),
        decreases segments@.len() - i,
    {
        let ghost st = state_view(sections@, title@, sec_start, paras@, para_segs@, para_text@, para_start, all_refs@);
        let seg = segments[i].copied();
        assert(seg_view(seg) == segs[i as int]);
        let mut sc = detect_scripture_references(seg.text.as_str(), seg.start_ms);
        proof {
            lemma_stamped(sc@, seg.text@, seg.start_ms);
        }
        let ghost old_refs = all_refs@;
        all_refs.append(&mut sc);
        assert(refs_view(all_refs@) =~= refs_view(old_refs) + stamped_refs(seg.text@, seg.start_ms as nat));
        let ghost st0 = StructState { refs: st.refs + stamped_refs(seg.text@, seg.start_ms as nat), ..st };
        assert(state_view(sections@, title@, sec_start, paras@, para_segs@, para_text@, para_start, all_refs@) == st0);
        match detect_section_title(seg.text.as_str()) {
            Some(new_title) => {
                let ghost sealed = para_text@.len() > 0;
                if para_text.len() > 0 {
                    let end = if para_segs.len() > 0 {
                        para_segs[para_segs.len() - 1].end_ms
                    } else {
                        seg.start_ms
                    };
                    let ghost old_paras = paras@;
                    let ghost old_ps = para_segs@;
                    let p = make_paragraph(para_start, end, &para_text, para_segs);
                    paras.push(p);
                    para_segs = Vec::new();
                    para_text = Vec::new();
                    assert(paras_view(paras@) =~= paras_view(old_paras).push(
                        mk_para(para_start as nat, end as nat, st0.para_text, segs_view(old_ps)),
                    ));
                    assert(segs_view(para_segs@) =~= seq![]);
                }
                if paras.len() > 0 {
                    let end = paras[paras.len() - 1].end_ms;
                    let ghost old_secs = sections@;
                    let ghost pv = paras_view(paras@);
                    sections.push(
                        Section { title, start_ms: sec_start, end_ms: end, paragraphs: paras },
                    );
                    paras = Vec::new();
                    assert(secs_view(sections@) =~= secs_view(old_secs).push(
                        SecV { title: st0.title, start: st0.sec_start, end: pv.last().end, paras: pv },
                    ));
                    assert(paras_view(paras@) =~= seq![]);
                }
                title = new_title;
                sec_start = seg.start_ms;
                para_start = seg.start_ms;
                proof {
                    let ex = open_section(st0, seg_view(seg), title@);
                    let cur = state_view(sections@, title@, sec_start, paras@, para_segs@, para_text@, para_start, all_refs@);
                    assert(cur.sections == ex.sections);
                    assert(cur.paras == ex.paras);
                    assert(cur.para_segs == ex.para_segs);
                    assert(cur.para_text == ex.para_text);
                    assert(cur.refs == ex.refs);
                    assert(cur.title == ex.title);
                }
            },
            None => {},
        }
        let ghost st1 = state_view(sections@, title@, sec_start, paras@, para_segs@, para_text@, para_start, all_refs@);
        let trimmed = trim(&chars_of(seg.text.as_str()));
        if para_text.len() > 0 {
            para_text.push(' ');
        }
        push_all(&mut para_text, &trimmed);
        let seg_start = seg.start_ms;
        let seg_end = seg.end_ms;
        let ghost old_ps = para_segs@;
        para_segs.push(seg);
        assert(segs_view(para_segs@) =~= segs_view(old_ps).push(segs[i as int]));
        if breaks_after_exec(&segments, i) {
            let ghost old_paras = paras@;
            let ghost ptext = para_text@;
            let ghost psegs = segs_view(para_segs@);
            let p = make_paragraph(para_start, seg_end, &para_text, para_segs);
            paras.push(p);
            para_segs = Vec::new();
            para_text = Vec::new();
            if i + 1 < segments.len() {
                para_start = segments[i + 1].start_ms;
            }
            assert(paras_view(paras@) =~= paras_view(old_paras).push(
                mk_para(st1.para_start, seg_end as nat, ptext, psegs),
            ));
            assert(segs_view(para_segs@) =~= seq![]);
        }
        assert(state_view(sections@, title@, sec_start, paras@, para_segs@, para_text@, para_start, all_refs@)
            == struct_step(segs, i as int, st));
        i += 1;
    }
    let ghost stf = state_view(sections@, title@, sec_start, paras@, para_segs@, para_text@, para_start, all_refs@);
    if paras.len() > 0 {
        let end = paras[paras.len() - 1].end_ms;
        let ghost old_secs = sections@;
        let ghost pv = paras_view(paras@);
        sections.push(Section { title, start_ms: sec_start, end_ms: end, paragraphs: paras });
        assert(secs_view(sections@) =~= secs_view(old_secs).push(
            SecV { title: stf.title, start: stf.sec_start, end: pv.last().end, paras: pv },
        ));
    }
    StructuredTranscript { sections, scripture_references: all_refs }
}


// ---------------------------------------------------------------------------
// What grouping keeps.
// ---------------------------------------------------------------------------

/// The segments of paragraphs, in order.
pub open spec fn para_segs_flat(ps: Seq<ParaV>) -> Seq<(nat, nat, Seq<char>)>
    decreases ps.len(),
{
    if ps.len() == 0 {
        seq![]
    } else {
        para_segs_flat(ps.drop_last()) + ps.last().segs
    }
}

/// The segments of the paragraphs of sections, in order.
pub open spec fn sec_segs_flat(ss: Seq<SecV>) -> Seq<(nat, nat, Seq<char>)>
    decreases ss.len(),
{
    if ss.len() == 0 {
        seq![]
    } else {
        sec_segs_flat(ss.drop_last()) + para_segs_flat(ss.last().paras)
    }
}

/// The scripture references of each segment in turn, stamped with its start.
pub open spec fn seg_refs_flat(segs: Seq<(nat, nat, Seq<char>)>) -> Seq<(Seq<char>, Seq<char>, nat)>
    decreases segs.len(),
{
    if segs.len() == 0 {
        seq![]
    } else {
        seg_refs_flat(segs.drop_last()) + stamped_refs(segs.last().2, segs.last().0)
    }
}

/// Every paragraph holds a segment.
pub open spec fn paras_ok(ps: Seq<ParaV>) -> bool {
    forall|k: int| 0 <= k < ps.len() ==> (#[trigger] ps[k]).segs.len() > 0
}

/// Every section holds a paragraph, and every paragraph a segment.
pub open spec fn secs_ok(ss: Seq<SecV>) -> bool {
    forall|k: int|
        0 <= k < ss.len() ==> (#[trigger] ss[k]).paras.len() > 0 && paras_ok(ss[k].paras)
}

/// What holds of the grouping state after the first `i` segments.
pub open spec fn struct_inv(segs: Seq<(nat, nat, Seq<char>)>, i: int, st: StructState) -> bool {
    &&& 0 <= i <= segs.len()
    &&& sec_segs_flat(st.sections) + para_segs_flat(st.paras) + st.para_segs == segs.take(i)
    &&& st.para_text.len() > 0 ==> st.para_segs.len() > 0
    &&& secs_ok(st.sections)
    &&& paras_ok(st.paras)
    &&& st.refs == seg_refs_flat(segs.take(i))
}

proof fn lemma_para_flat_push(ps: Seq<ParaV>, p: ParaV)
    ensures
        para_segs_flat(ps.push(p)) == para_segs_flat(ps) + p.segs,
{
    assert(ps.push(p).drop_last() =~= ps);
}

proof fn lemma_sec_flat_push(ss: Seq<SecV>, x: SecV)
    ensures
        sec_segs_flat(ss.push(x)) == sec_segs_flat(ss) + para_segs_flat(x.paras),
{
    assert(ss.push(x).drop_last() =~= ss);
}

#[verifier::rlimit(40)]
proof fn lemma_struct_step(segs: Seq<(nat, nat, Seq<char>)>, i: int, st: StructState)
    requires
        0 <= i < segs.len(),
        struct_inv(segs, i, st),
    ensures
        struct_inv(segs, i + 1, struct_step(segs, i, st)),
        i == segs.len() - 1 ==> struct_step(segs, i, st).para_segs.len() == 0,
{
    let seg = segs[i];
    assert(segs.take(i + 1).drop_last() =~= segs.take(i));
    assert(segs.take(i + 1).last() == seg);
    let st0 = StructState { refs: st.refs + stamped_refs(seg.2, seg.0), ..st };
    let st1 = match section_title_spec(seg.2) {
        Some(t) => open_section(st0, seg, t),
        None => st0,
    };
    assert(sec_segs_flat(st1.sections) + para_segs_flat(st1.paras) + st1.para_segs == segs.take(i)
        && (st1.para_text.len() > 0 ==> st1.para_segs.len() > 0) && secs_ok(st1.sections)
        && paras_ok(st1.paras)) by {
        match section_title_spec(seg.2) {
            Some(t) => {
                let sealed = st0.para_text.len() > 0;
                let paras1 = if sealed {
                    let end = if st0.para_segs.len() > 0 {
                        st0.para_segs.last().1
                    } else {
                        seg.0
                    };
                    let np = mk_para(st0.para_start, end, st0.para_text, st0.para_segs);
                    lemma_para_flat_push(st0.paras, np);
                    st0.paras.push(np)
                } else {
                    st0.paras
                };
                let ps1 = if sealed {
                    seq![]
                } else {
                    st0.para_segs
                };
                assert(para_segs_flat(paras1) + ps1 =~= para_segs_flat(st0.paras) + st0.para_segs);
                assert(paras_ok(paras1)) by {
                    assert forall|k: int| 0 <= k < paras1.len() implies (
                    #[trigger] paras1[k]).segs.len() > 0 by {
                        if k < st0.paras.len() {
                            assert(paras1[k] == st0.paras[k]);
                        }
                    }
                }
                if paras1.len() > 0 {
                    let x = SecV {
                        title: st0.title,
                        start: st0.sec_start,
                        end: paras1.last().end,
                        paras: paras1,
                    };
                    lemma_sec_flat_push(st0.sections, x);
                    assert(para_segs_flat(seq![]) =~= seq![]);
                    assert(secs_ok(st0.sections.push(x))) by {
                        assert forall|k: int| 0 <= k < st0.sections.len() + 1 implies (
                        #[trigger] st0.sections.push(x)[k]).paras.len() > 0 && paras_ok(
                            st0.sections.push(x)[k].paras,
                        ) by {
                            if k < st0.sections.len() {
                                assert(st0.sections.push(x)[k] == st0.sections[k]);
                            }
                        }
                    }
                    assert(sec_segs_flat(st1.sections) + para_segs_flat(st1.paras)
                        + st1.para_segs =~= sec_segs_flat(st0.sections) + para_segs_flat(st0.paras)
                        + st0.para_segs);
                } else {
                    assert(sec_segs_flat(st1.sections) + para_segs_flat(st1.paras)
                        + st1.para_segs =~= sec_segs_flat(st0.sections) + para_segs_flat(st0.paras)
                        + st0.para_segs);
                }
            },
            None => {},
        }
    }
    let psegs = st1.para_segs.push(seg);
    let ptext = (if st1.para_text.len() > 0 {
        st1.para_text.push(' ')
    } else {
        st1.para_text
    }) + trim_seq(seg.2);
    let r = struct_step(segs, i, st);
    assert(r.refs == seg_refs_flat(segs.take(i + 1)));
    if breaks_after(segs, i) {
        let np = mk_para(st1.para_start, seg.1, ptext, psegs);
        lemma_para_flat_push(st1.paras, np);
        assert(sec_segs_flat(r.sections) + para_segs_flat(r.paras) + r.para_segs =~= segs.take(
            i + 1,
        ));
        assert forall|k: int| 0 <= k < r.paras.len() implies (#[trigger] r.paras[k]).segs.len()
            > 0 by {
            if k < st1.paras.len() {
                assert(r.paras[k] == st1.paras[k]);
            }
        }
    } else {
        assert(sec_segs_flat(r.sections) + para_segs_flat(r.paras) + r.para_segs =~= segs.take(
            i + 1,
        ));
        assert(i + 1 < segs.len());
    }
}

proof fn lemma_struct_run(segs: Seq<(nat, nat, Seq<char>)>, i: int, st: StructState)
    requires
        struct_inv(segs, i, st),
        i < segs.len() || st.para_segs.len() == 0,
    ensures
        struct_inv(segs, segs.len() as int, struct_run(segs, i, st)),
        struct_run(segs, i, st).para_segs.len() == 0,
    decreases segs.len() - i,
{
    if i < segs.len() {
        lemma_struct_step(segs, i, st);
        lemma_struct_run(segs, i + 1, struct_step(segs, i, st));
    }
}

/// Grouping loses, repeats and reorders no segment: the segments of the paragraphs of the
/// sections, read in order, are exactly the input segments (with the custom vocabulary
/// applied); every section holds at least one paragraph and every paragraph at least one
/// segment; and the transcript's scripture references are those found in each segment in
/// turn, stamped with its start.
pub proof fn lemma_structure_keeps_segments(raw: Seq<(nat, nat, Seq<char>)>, csv: Seq<char>)
    ensures
        sec_segs_flat(structure_spec(raw, csv).0) == vocab_segs(raw, csv),
        secs_ok(structure_spec(raw, csv).0),
        structure_spec(raw, csv).1 == seg_refs_flat(vocab_segs(raw, csv)),
{
    let segs = vocab_segs(raw, csv);
    if raw.len() == 0 {
        assert(segs =~= seq![]);
    } else {
        let init = struct_init(segs);
        assert(segs.take(0) =~= seq![]);
        assert(para_segs_flat(init.paras) =~= seq![]);
        assert(sec_segs_flat(init.sections) =~= seq![]);
        assert(struct_inv(segs, 0, init));
        lemma_struct_run(segs, 0, init);
        let st = struct_run(segs, 0, init);
        assert(segs.take(segs.len() as int) =~= segs);
        if st.paras.len() > 0 {
            let x = SecV { title: st.title, start: st.sec_start, end: st.paras.last().end, paras: st.paras };
            lemma_sec_flat_push(st.sections, x);
            assert(sec_segs_flat(final_sections(st)) =~= segs);
            assert forall|k: int| 0 <= k < final_sections(st).len() implies (
            #[trigger] final_sections(st)[k]).paras.len() > 0 && paras_ok(final_sections(st)[k].paras) by {
                if k < st.sections.len() {
                    assert(final_sections(st)[k] == st.sections[k]);
                }
            }
        } else {
            assert(para_segs_flat(st.paras) =~= seq![]);
            assert(sec_segs_flat(final_sections(st)) =~= segs);
        }
    }
}


// ---------------------------------------------------------------------------
// Where paragraphs and sections begin and end.
// ---------------------------------------------------------------------------

/// The paragraphs of the sections, in order.
pub open spec fn sec_paras_flat(ss: Seq<SecV>) -> Seq<ParaV>
    decreases ss.len(),
{
    if ss.len() == 0 {
        seq![]
    } else {
        sec_paras_flat(ss.drop_last()) + ss.last().paras
    }
}

/// A paragraph holds a segment, starts where its first segment starts and ends where its last
/// one ends.
pub open spec fn para_spans(p: ParaV) -> bool {
    p.segs.len() > 0 && p.start == p.segs[0].0 && p.end == p.segs.last().1
}

/// A section holds a paragraph, starts where its first paragraph starts and ends where its
/// last one ends, and each of its paragraphs spans its segments.
pub open spec fn sec_spans(x: SecV) -> bool {
    &&& x.paras.len() > 0
    &&& x.start == x.paras[0].start
    &&& x.end == x.paras.last().end
    &&& forall|k: int| 0 <= k < x.paras.len() ==> para_spans(#[trigger] x.paras[k])
}

/// How many of the segments `1..i` open a section.
pub open spec fn titled_before(segs: Seq<(nat, nat, Seq<char>)>, i: int) -> nat
    decreases i,
{
    if i <= 1 {
        0
    } else {
        titled_before(segs, i - 1) + if section_title_spec(segs[i - 1].2) is Some {
            1nat
        } else {
            0nat
        }
    }
}

/// Each paragraph, read in order over the segments, ends after a segment where a paragraph
/// break falls, and no break falls after any of its other segments.
pub open spec fn breaks_match(segs: Seq<(nat, nat, Seq<char>)>, ps: Seq<ParaV>) -> bool
    decreases ps.len(),
{
    if ps.len() == 0 {
        true
    } else {
        let a = para_segs_flat(ps.drop_last()).len() as int;
        let l = ps.last().segs.len() as int;
        &&& breaks_match(segs, ps.drop_last())
        &&& l > 0
        &&& breaks_after(segs, a + l - 1)
        &&& forall|t: int| a <= t < a + l - 1 ==> !#[trigger] breaks_after(segs, t)
    }
}

proof fn lemma_para_flat_append(a: Seq<ParaV>, b: Seq<ParaV>)
    ensures
        para_segs_flat(a + b) == para_segs_flat(a) + para_segs_flat(b),
    decreases b.len(),
{
    if b.len() == 0 {
        assert(a + b =~= a);
        assert(para_segs_flat(a) + seq![] =~= para_segs_flat(a));
    } else {
        lemma_para_flat_append(a, b.drop_last());
        assert((a + b).drop_last() =~= a + b.drop_last());
        assert((a + b).last() == b.last());
    }
}

proof fn lemma_sec_paras_flat(ss: Seq<SecV>)
    ensures
        para_segs_flat(sec_paras_flat(ss)) == sec_segs_flat(ss),
    decreases ss.len(),
{
    if ss.len() > 0 {
        lemma_sec_paras_flat(ss.drop_last());
        lemma_para_flat_append(sec_paras_flat(ss.drop_last()), ss.last().paras);
    }
}

/// What holds of where paragraphs and sections lie after the first `i` segments.
pub open spec fn span_inv(segs: Seq<(nat, nat, Seq<char>)>, i: int, st: StructState) -> bool {
    &&& struct_inv(segs, i, st)
    &&& forall|k: int| 0 <= k < st.sections.len() ==> sec_spans(#[trigger] st.sections[k])
    &&& forall|k: int| 0 <= k < st.paras.len() ==> para_spans(#[trigger] st.paras[k])
    &&& st.para_segs.len() > 0 ==> st.para_start == st.para_segs[0].0
    &&& st.para_segs.len() == 0 ==> st.para_text.len() == 0 && (i < segs.len() ==> st.para_start
        == segs[i].0)
    &&& st.sec_start == if st.paras.len() > 0 {
        st.paras[0].start
    } else {
        st.para_start
    }
    &&& st.sections.len() == titled_before(segs, i)
    &&& i >= 1 ==> (breaks_after(segs, i - 1) <==> st.para_segs.len() == 0)
    &&& i >= 1 && breaks_after(segs, i - 1) ==> st.paras.len() > 0
    &&& breaks_match(segs, sec_paras_flat(st.sections) + st.paras)
    &&& forall|t: int| i - st.para_segs.len() <= t < i ==> !#[trigger] breaks_after(segs, t)
}

proof fn lemma_closed_len(segs: Seq<(nat, nat, Seq<char>)>, i: int, st: StructState)
    requires
        struct_inv(segs, i, st),
    ensures
        para_segs_flat(sec_paras_flat(st.sections) + st.paras).len() == i - st.para_segs.len(),
{
    lemma_sec_paras_flat(st.sections);
    lemma_para_flat_append(sec_paras_flat(st.sections), st.paras);
    assert(segs.take(i).len() == i);
}

#[verifier::rlimit(60)]
proof fn lemma_span_step(segs: Seq<(nat, nat, Seq<char>)>, i: int, st: StructState)
    requires
        0 <= i < segs.len(),
        span_inv(segs, i, st),
    ensures
        span_inv(segs, i + 1, struct_step(segs, i, st)),
{
    lemma_struct_step(segs, i, st);
    lemma_closed_len(segs, i, st);
    let seg = segs[i];
    let st0 = StructState { refs: st.refs + stamped_refs(seg.2, seg.0), ..st };
    let titled = section_title_spec(seg.2) is Some;
    if titled && i >= 1 {
        assert(breaks_after(segs, i - 1));
    }
    let st1 = match section_title_spec(seg.2) {
        Some(t) => open_section(st0, seg, t),
        None => st0,
    };
    let closed = sec_paras_flat(st.sections) + st.paras;
    let closed1 = sec_paras_flat(st1.sections) + st1.paras;
    assert(titled_before(segs, i + 1) == titled_before(segs, i) + if titled && i >= 1 {
        1nat
    } else {
        0nat
    });
    assert(closed1 == closed && st1.sections.len() == titled_before(segs, i + 1)
        && (forall|k: int| 0 <= k < st1.sections.len() ==> sec_spans(#[trigger] st1.sections[k]))
        && (forall|k: int| 0 <= k < st1.paras.len() ==> para_spans(#[trigger] st1.paras[k]))
        && st1.para_segs == st.para_segs && st1.para_text == st.para_text && (st1.para_segs.len()
        == 0 ==> st1.para_start == seg.0) && (st1.para_segs.len() > 0 ==> st1.para_start
        == st1.para_segs[0].0) && st1.sec_start == (if st1.paras.len() > 0 {
        st1.paras[0].start
    } else {
        st1.para_start
    })) by {
        match section_title_spec(seg.2) {
            Some(t) => {
                if st.paras.len() > 0 {
                    let x = SecV {
                        title: st0.title,
                        start: st0.sec_start,
                        end: st0.paras.last().end,
                        paras: st0.paras,
                    };
                    assert(st1.sections == st.sections.push(x));
                    assert(st.sections.push(x).drop_last() =~= st.sections);
                    assert(closed1 =~= closed);
                    assert forall|k: int| 0 <= k < st1.sections.len() implies sec_spans(
                        #[trigger] st1.sections[k],
                    ) by {
                        if k < st.sections.len() {
                            assert(st1.sections[k] == st.sections[k]);
                        }
                    }
                } else {
                    assert(closed1 =~= closed);
                }
            },
            None => {},
        }
    }
    let psegs = st1.para_segs.push(seg);
    let ptext = (if st1.para_text.len() > 0 {
        st1.para_text.push(' ')
    } else {
        st1.para_text
    }) + trim_seq(seg.2);
    let r = struct_step(segs, i, st);
    assert(psegs[0].0 == st1.para_start);
    if breaks_after(segs, i) {
        let np = mk_para(st1.para_start, seg.1, ptext, psegs);
        assert(r.paras == st1.paras.push(np));
        assert(para_spans(np));
        assert forall|k: int| 0 <= k < r.paras.len() implies para_spans(#[trigger] r.paras[k]) by {
            if k < st1.paras.len() {
                assert(r.paras[k] == st1.paras[k]);
            }
        }
        let closed2 = sec_paras_flat(r.sections) + r.paras;
        assert(closed2 =~= closed1.push(np));
        assert(closed2.drop_last() =~= closed1);
        assert(breaks_match(segs, closed2)) by {
            assert(para_segs_flat(closed1).len() == i - st.para_segs.len());
            assert forall|t: int| i - st.para_segs.len() <= t < i - st.para_segs.len() + psegs.len()
                - 1 implies !#[trigger] breaks_after(segs, t) by {}
        }
    } else {
        assert(r.paras == st1.paras);
        assert(r.sections == st1.sections);
        assert forall|t: int| i + 1 - r.para_segs.len() <= t < i + 1 implies !#[trigger] breaks_after(
            segs,
            t,
        ) by {}
    }
}

proof fn lemma_span_run(segs: Seq<(nat, nat, Seq<char>)>, i: int, st: StructState)
    requires
        0 <= i <= segs.len(),
        span_inv(segs, i, st),
    ensures
        span_inv(segs, segs.len() as int, struct_run(segs, i, st)),
    decreases segs.len() - i,
{
    if i < segs.len() {
        lemma_span_step(segs, i, st);
        lemma_span_run(segs, i + 1, struct_step(segs, i, st));
    }
}

/// How a transcript is grouped: there is one section more than there are segments after the
/// first that open a section; each section holds paragraphs and runs from the start of its
/// first paragraph to the end of its last, and each paragraph holds segments and runs from
/// the start of its first segment to the end of its last; and, reading the paragraphs in
/// order over the segments (with the custom vocabulary applied), a paragraph ends after a
/// segment exactly when a paragraph break falls there.
pub proof fn lemma_structure_spans(raw: Seq<(nat, nat, Seq<char>)>, csv: Seq<char>)
    requires
        raw.len() > 0,
    ensures
        structure_spec(raw, csv).0.len() == titled_before(vocab_segs(raw, csv), raw.len() as int) + 1,
        forall|k: int|
            0 <= k < structure_spec(raw, csv).0.len() ==> sec_spans(#[trigger] structure_spec(raw, csv).0[k]),
        breaks_match(vocab_segs(raw, csv), sec_paras_flat(structure_spec(raw, csv).0)),
        para_segs_flat(sec_paras_flat(structure_spec(raw, csv).0)) == vocab_segs(raw, csv),
{
    let segs = vocab_segs(raw, csv);
    let init = struct_init(segs);
    assert(segs.take(0) =~= seq![]);
    assert(para_segs_flat(init.paras) =~= seq![]);
    assert(sec_segs_flat(init.sections) =~= seq![]);
    assert(sec_paras_flat(init.sections) + init.paras =~= seq![]);
    assert(span_inv(segs, 0, init));
    lemma_span_run(segs, 0, init);
    let st = struct_run(segs, 0, init);
    let n = segs.len() as int;
    assert(breaks_after(segs, n - 1));
    let x = SecV { title: st.title, start: st.sec_start, end: st.paras.last().end, paras: st.paras };
    let fs = final_sections(st);
    assert(fs == st.sections.push(x));
    assert(fs.drop_last() =~= st.sections);
    assert(sec_paras_flat(fs) =~= sec_paras_flat(st.sections) + st.paras);
    assert forall|k: int| 0 <= k < fs.len() implies sec_spans(#[trigger] fs[k]) by {
        if k < st.sections.len() {
            assert(fs[k] == st.sections[k]);
        }
    }
    lemma_structure_keeps_segments(raw, csv);
    lemma_sec_paras_flat(fs);
}


// ---------------------------------------------------------------------------
// What the custom vocabulary keeps.
// ---------------------------------------------------------------------------

/// `n` places where the text is kept.
pub open spec fn keep_all(n: int) -> Seq<Option<char>> {
    Seq::new(if n > 0 { n as nat } else { 0 }, |p: int| None::<char>)
}

/// The text with the characters a mask writes (`Some`) put in place.
pub open spec fn overlay(y: Seq<char>, m: Seq<Option<char>>) -> Seq<char> {
    Seq::new(
        y.len(),
        |p: int|
            match m[p] {
                Some(c) => c,
                None => y[p],
            },
    )
}

/// Two masks, the second writing over the first.
pub open spec fn combine(m1: Seq<Option<char>>, m2: Seq<Option<char>>) -> Seq<Option<char>> {
    Seq::new(m1.len(), |p: int| if m2[p] is Some { m2[p] } else { m1[p] })
}

/// A mask of a text with lowercase form `lower`: as long as it, and writing only ASCII
/// characters whose lowercase form is the one already there.
pub open spec fn mask_fits(m: Seq<Option<char>>, lower: Seq<char>) -> bool {
    &&& m.len() == lower.len()
    &&& forall|p: int|
        0 <= p < m.len() ==> match #[trigger] m[p] {
            Some(c) => is_ascii_char(c) && ascii_lower(c) == lower[p],
            None => true,
        }
}

/// Where replacing the lowercase term `lt` by `term` writes, from index `i` of the lowercase
/// text on.
pub open spec fn ci_mask_from(lower: Seq<char>, lt: Seq<char>, term: Seq<char>, i: int) -> Seq<
    Option<char>,
>
    decreases lower.len() + 1 - i,
{
    if i < 0 || i > lower.len() || lt.len() == 0 {
        keep_all(lower.len() - i)
    } else {
        match find_from(lower, lt, i) {
            None => keep_all(lower.len() - i),
            Some(k) => if k < i || k + lt.len() > lower.len() {
                keep_all(lower.len() - i)
            } else {
                keep_all(k - i) + term.map_values(|c: char| Some(c)) + ci_mask_from(
                    lower,
                    lt,
                    term,
                    k + lt.len(),
                )
            },
        }
    }
}

/// Where one vocabulary term writes in a text with lowercase form `lower`.
pub open spec fn step_mask(lower: Seq<char>, term: Seq<char>) -> Seq<Option<char>> {
    let lt = lowercase_of(term);
    if lt.len() == 0 {
        keep_all(lower.len() as int)
    } else {
        ci_mask_from(lower, lt, term, 0)
    }
}

/// Where the vocabulary terms write, in turn, in a text with lowercase form `lower`.
pub open spec fn terms_mask(lower: Seq<char>, terms: Seq<Seq<char>>) -> Seq<Option<char>>
    decreases terms.len(),
{
    if terms.len() == 0 {
        keep_all(lower.len() as int)
    } else {
        combine(terms_mask(lower, terms.drop_last()), step_mask(lower, terms.last()))
    }
}

proof fn lemma_ci_mask(text: Seq<char>, lower: Seq<char>, lt: Seq<char>, term: Seq<char>, i: int)
    requires
        text.len() == lower.len(),
        lt == term.map_values(|c: char| ascii_lower(c)),
        all_ascii(term),
        lt.len() > 0,
        0 <= i <= lower.len(),
    ensures
        ci_mask_from(lower, lt, term, i).len() == lower.len() - i,
        ci_replace_from(text, lower, lt, term, i) == overlay(
            text.subrange(i, text.len() as int),
            ci_mask_from(lower, lt, term, i),
        ),
        forall|p: int|
            0 <= p < lower.len() - i ==> match #[trigger] ci_mask_from(lower, lt, term, i)[p] {
                Some(c) => is_ascii_char(c) && ascii_lower(c) == lower[i + p],
                None => true,
            },
    decreases lower.len() + 1 - i,
{
    let m = ci_mask_from(lower, lt, term, i);
    let r = ci_replace_from(text, lower, lt, term, i);
    let rest = text.subrange(i, text.len() as int);
    lemma_find_from(lower, lt, i);
    match find_from(lower, lt, i) {
        Some(k) => {
            if !(k < i || k + lt.len() > lower.len()) {
                let e = k + lt.len();
                lemma_ci_mask(text, lower, lt, term, e);
                let m2 = ci_mask_from(lower, lt, term, e);
                let tm = term.map_values(|c: char| Some(c));
                assert(m == keep_all(k - i) + tm + m2);
                let tail = ci_replace_from(text, lower, lt, term, e);
                assert(r == text.subrange(i, k) + term + tail);
                assert forall|p: int| 0 <= p < r.len() implies r[p] == overlay(rest, m)[p] by {
                    if p < k - i {
                        assert(m[p] == None::<char>);
                    } else if p < k - i + term.len() {
                        assert(m[p] == tm[p - (k - i)]);
                    } else {
                        assert(m[p] == m2[p - (k - i) - term.len()]);
                        assert(tail[p - (k - i) - term.len()] == overlay(
                            text.subrange(e, text.len() as int),
                            m2,
                        )[p - (k - i) - term.len()]);
                    }
                }
                assert(r =~= overlay(rest, m));
                assert forall|p: int| 0 <= p < lower.len() - i implies match #[trigger] m[p] {
                    Some(c) => is_ascii_char(c) && ascii_lower(c) == lower[i + p],
                    None => true,
                } by {
                    if p < k - i {
                        assert(m[p] == None::<char>);
                    } else if p < k - i + term.len() {
                        let j = p - (k - i);
                        assert(m[p] == Some(term[j]));
                        assert(lower.subrange(k, e)[j] == lower[k + j]);
                        assert(lt[j] == ascii_lower(term[j]));
                    } else {
                        assert(m[p] == m2[p - (k - i) - term.len()]);
                    }
                }
            } else {
                assert(r =~= overlay(rest, m));
            }
        },
        None => {
            assert(r =~= overlay(rest, m));
        },
    }
}

proof fn lemma_overlay_lower(y: Seq<char>, m: Seq<Option<char>>)
    requires
        all_ascii(y),
        mask_fits(m, lowercase_of(y)),
    ensures
        all_ascii(overlay(y, m)),
        lowercase_of(overlay(y, m)) == lowercase_of(y),
{
    lemma_lowercase_ascii(y);
    let o = overlay(y, m);
    assert forall|p: int| 0 <= p < o.len() implies is_ascii_char(#[trigger] o[p]) by {
        assert(lowercase_of(y)[p] == ascii_lower(y[p]));
    }
    lemma_lowercase_ascii(o);
    assert(lowercase_of(o) =~= lowercase_of(y)) by {
        assert forall|p: int| 0 <= p < o.len() implies lowercase_of(o)[p] == lowercase_of(y)[p] by {
            assert(lowercase_of(y)[p] == ascii_lower(y[p]));
            assert(lowercase_of(o)[p] == ascii_lower(o[p]));
        }
    }
}

proof fn lemma_vocab_step_mask(y: Seq<char>, t: Seq<char>)
    requires
        all_ascii(y),
        all_ascii(t),
    ensures
        mask_fits(step_mask(lowercase_of(y), t), lowercase_of(y)),
        vocab_step(y, t) == overlay(y, step_mask(lowercase_of(y), t)),
{
    lemma_lowercase_ascii(y);
    lemma_lowercase_ascii(t);
    let low = lowercase_of(y);
    let lt = lowercase_of(t);
    if lt.len() == 0 {
        assert(overlay(y, keep_all(low.len() as int)) =~= y);
    } else {
        lemma_ci_mask(y, low, lt, t, 0);
        assert(y.subrange(0, y.len() as int) =~= y);
        assert(low.subrange(0, low.len() as int) =~= low);
    }
}

proof fn lemma_terms_mask(y: Seq<char>, terms: Seq<Seq<char>>)
    requires
        all_ascii(y),
        forall|k: int| 0 <= k < terms.len() ==> all_ascii(#[trigger] terms[k]),
    ensures
        mask_fits(terms_mask(lowercase_of(y), terms), lowercase_of(y)),
        apply_terms(y, terms) == overlay(y, terms_mask(lowercase_of(y), terms)),
        all_ascii(apply_terms(y, terms)),
        lowercase_of(apply_terms(y, terms)) == lowercase_of(y),
    decreases terms.len(),
{
    lemma_lowercase_ascii(y);
    let low = lowercase_of(y);
    if terms.len() == 0 {
        assert(overlay(y, keep_all(low.len() as int)) =~= y);
    } else {
        let d = terms.drop_last();
        assert forall|k: int| 0 <= k < d.len() implies all_ascii(#[trigger] d[k]) by {
            assert(d[k] == terms[k]);
        }
        lemma_terms_mask(y, d);
        let r0 = apply_terms(y, d);
        let m0 = terms_mask(low, d);
        let t = terms.last();
        assert(all_ascii(t)) by {
            assert(terms[terms.len() - 1] == t);
        }
        lemma_vocab_step_mask(r0, t);
        let sm = step_mask(low, t);
        let m = combine(m0, sm);
        assert(m == terms_mask(low, terms));
        assert(apply_terms(y, terms) =~= overlay(y, m)) by {
            assert forall|p: int| 0 <= p < y.len() implies apply_terms(y, terms)[p] == overlay(y, m)[p] by {}
        }
        assert(mask_fits(m, low)) by {
            assert forall|p: int| 0 <= p < m.len() implies match #[trigger] m[p] {
                Some(c) => is_ascii_char(c) && ascii_lower(c) == low[p],
                None => true,
            } by {
                let a = m0[p];
                let b = sm[p];
            }
        }
        lemma_overlay_lower(y, m);
    }
}

proof fn lemma_ascii_pieces(s: Seq<char>, c: char)
    requires
        all_ascii(s),
    ensures
        forall|k: int| 0 <= k < split_char(s, c).len() ==> all_ascii(#[trigger] split_char(s, c)[k]),
        split_char(s, c).len() > 0,
    decreases s.len(),
{
    if s.len() > 0 {
        let d = s.drop_last();
        assert(all_ascii(d)) by {
            assert forall|i: int| 0 <= i < d.len() implies is_ascii_char(#[trigger] d[i]) by {
                assert(d[i] == s[i]);
            }
        }
        lemma_ascii_pieces(d, c);
        let r = split_char(d, c);
        let x = s.last();
        assert(is_ascii_char(s[s.len() - 1]));
        if x != c {
            let u = r.update(r.len() - 1, r.last().push(x));
            assert forall|k: int| 0 <= k < u.len() implies all_ascii(#[trigger] u[k]) by {
                if k < r.len() - 1 {
                    assert(u[k] == r[k]);
                } else {
                    assert(all_ascii(r[r.len() - 1]));
                    assert forall|i: int| 0 <= i < u[k].len() implies is_ascii_char(#[trigger] u[k][i]) by {
                        if i < r.last().len() {
                            assert(u[k][i] == r.last()[i]);
                        }
                    }
                }
            }
        } else {
            let u = r.push(seq![]);
            assert forall|k: int| 0 <= k < u.len() implies all_ascii(#[trigger] u[k]) by {
                if k < r.len() {
                    assert(u[k] == r[k]);
                }
            }
        }
    }
}

proof fn lemma_trim_ascii(t: Seq<char>)
    requires
        all_ascii(t),
    ensures
        all_ascii(trim_seq(t)),
{
    lemma_lead_from(t, ws(), 0);
    let a = trim_start_seq(t);
    assert forall|j: int| 0 <= j < a.len() implies is_ascii_char(#[trigger] a[j]) by {
        assert(a[j] == t[j + lead_from(t, ws(), 0)]);
    }
    let b = trim_end_seq(a);
    lemma_trail_from(a, ws(), a.len() as int);
    assert forall|j: int| 0 <= j < b.len() implies is_ascii_char(#[trigger] b[j]) by {
        assert(b[j] == a[j]);
    }
}

proof fn lemma_nonempty_trimmed_ascii(ps: Seq<Seq<char>>)
    requires
        forall|k: int| 0 <= k < ps.len() ==> all_ascii(#[trigger] ps[k]),
    ensures
        forall|k: int|
            0 <= k < nonempty_trimmed(ps).len() ==> all_ascii(#[trigger] nonempty_trimmed(ps)[k]),
    decreases ps.len(),
{
    if ps.len() > 0 {
        let d = ps.drop_last();
        assert forall|k: int| 0 <= k < d.len() implies all_ascii(#[trigger] d[k]) by {
            assert(d[k] == ps[k]);
        }
        lemma_nonempty_trimmed_ascii(d);
        let r = nonempty_trimmed(d);
        let t = trim_seq(ps.last());
        assert(all_ascii(ps[ps.len() - 1]));
        lemma_trim_ascii(ps.last());
        if t.len() > 0 {
            assert forall|k: int| 0 <= k < r.push(t).len() implies all_ascii(#[trigger] r.push(t)[k]) by {
                if k < r.len() {
                    assert(r.push(t)[k] == r[k]);
                }
            }
        }
    }
}

/// On ASCII text and an ASCII vocabulary list, applying the custom vocabulary changes only
/// the letter case: the lowercase form of the text stays the same. And applying it a second
/// time changes nothing more.
pub proof fn lemma_vocabulary_settles(text: Seq<char>, csv: Seq<char>)
    requires
        all_ascii(text),
        all_ascii(csv),
    ensures
        lowercase_of(apply_terms(text, vocab_terms(csv))) == lowercase_of(text),
        apply_terms(apply_terms(text, vocab_terms(csv)), vocab_terms(csv)) == apply_terms(
            text,
            vocab_terms(csv),
        ),
{
    let terms = vocab_terms(csv);
    lemma_ascii_pieces(csv, ',');
    lemma_nonempty_trimmed_ascii(split_char(csv, ','));
    lemma_terms_mask(text, terms);
    let r = apply_terms(text, terms);
    let m = terms_mask(lowercase_of(text), terms);
    lemma_terms_mask(r, terms);
    assert(apply_terms(r, terms) == overlay(r, m));
    assert(overlay(r, m) =~= r) by {
        assert forall|p: int| 0 <= p < r.len() implies overlay(r, m)[p] == r[p] by {}
    }
}

/// Every character is white space.
pub open spec fn all_blank(s: Seq<char>) -> bool {
    forall|i: int| 0 <= i < s.len() ==> #[trigger] ws()(s[i])
}

proof fn lemma_trim_empty_blank(s: Seq<char>)
    requires
        trim_seq(s).len() == 0,
    ensures
        all_blank(s),
{
    lemma_lead_from(s, ws(), 0);
    let l = lead_from(s, ws(), 0) as int;
    if l < s.len() {
        let a = trim_start_seq(s);
        assert(a[0] == s[l]);
        lemma_trail_from(a, ws(), a.len() as int);
        let t = trail_from(a, ws(), a.len() as int) as int;
        if t == a.len() {
            assert(ws()(a[0]));
        }
    }
}

proof fn lemma_blank_lead(s: Seq<char>, i: int)
    requires
        all_blank(s),
        0 <= i <= s.len(),
    ensures
        lead_from(s, ws(), i) == s.len() - i,
    decreases s.len() - i,
{
    if i < s.len() {
        lemma_blank_lead(s, i + 1);
    }
}

proof fn lemma_blank_pieces(s: Seq<char>, c: char)
    requires
        all_blank(s),
    ensures
        forall|k: int| 0 <= k < split_char(s, c).len() ==> all_blank(#[trigger] split_char(s, c)[k]),
    decreases s.len(),
{
    if s.len() > 0 {
        let d = s.drop_last();
        assert(all_blank(d)) by {
            assert forall|i: int| 0 <= i < d.len() implies #[trigger] ws()(d[i]) by {
                assert(d[i] == s[i]);
            }
        }
        lemma_blank_pieces(d, c);
        lemma_split_nonempty(d, c);
        let r = split_char(d, c);
        let x = s.last();
        assert(ws()(s[s.len() - 1]));
        if x != c {
            let u = r.update(r.len() - 1, r.last().push(x));
            assert forall|k: int| 0 <= k < u.len() implies all_blank(#[trigger] u[k]) by {
                if k < r.len() - 1 {
                    assert(u[k] == r[k]);
                } else {
                    assert(all_blank(r[r.len() - 1]));
                    assert forall|i: int| 0 <= i < u[k].len() implies #[trigger] ws()(u[k][i]) by {
                        if i < r.last().len() {
                            assert(u[k][i] == r.last()[i]);
                        }
                    }
                }
            }
        } else {
            let u = r.push(seq![]);
            assert forall|k: int| 0 <= k < u.len() implies all_blank(#[trigger] u[k]) by {
                if k < r.len() {
                    assert(u[k] == r[k]);
                }
            }
        }
    }
}

proof fn lemma_split_nonempty(s: Seq<char>, c: char)
    ensures
        split_char(s, c).len() > 0,
    decreases s.len(),
{
    if s.len() > 0 {
        lemma_split_nonempty(s.drop_last(), c);
    }
}

proof fn lemma_blank_terms(ps: Seq<Seq<char>>)
    requires
        forall|k: int| 0 <= k < ps.len() ==> all_blank(#[trigger] ps[k]),
    ensures
        nonempty_trimmed(ps).len() == 0,
    decreases ps.len(),
{
    if ps.len() > 0 {
        let d = ps.drop_last();
        assert forall|k: int| 0 <= k < d.len() implies all_blank(#[trigger] d[k]) by {
            assert(d[k] == ps[k]);
        }
        lemma_blank_terms(d);
        assert(all_blank(ps[ps.len() - 1]));
        lemma_blank_lead(ps.last(), 0);
        assert(trim_start_seq(ps.last()).len() == 0);
    }
}

/// A blank vocabulary list changes no text.
pub proof fn lemma_blank_vocabulary(text: Seq<char>, csv: Seq<char>)
    requires
        trim_seq(csv).len() == 0,
    ensures
        apply_terms(text, vocab_terms(csv)) == text,
{
    lemma_trim_empty_blank(csv);
    lemma_blank_pieces(csv, ',');
    lemma_blank_terms(split_char(csv, ','));
}

/// Where a paragraph must end: after the last segment; after a segment followed by a pause
/// of more than 1.2 s; after a segment whose trimmed text ends in `.`, `!` or `?` and is
/// followed by a pause of more than 0.8 s; and before a segment that opens a section.
pub proof fn lemma_paragraph_break_rules(segs: Seq<(nat, nat, Seq<char>)>, i: int)
    requires
        0 <= i < segs.len(),
    ensures
        i == segs.len() - 1 ==> breaks_after(segs, i),
        i + 1 < segs.len() && segs[i + 1].0 > segs[i].1 + 1200 ==> breaks_after(segs, i),
        i + 1 < segs.len() && segs[i + 1].0 > segs[i].1 + 800 && trim_end_seq(segs[i].2).len() > 0
            && (trim_end_seq(segs[i].2).last() == '.' || trim_end_seq(segs[i].2).last() == '!'
            || trim_end_seq(segs[i].2).last() == '?') ==> breaks_after(segs, i),
        i + 1 < segs.len() && section_title_spec(segs[i + 1].2) is Some ==> breaks_after(segs, i),
        i + 1 < segs.len() && segs[i + 1].0 <= segs[i].1 + 800 && section_title_spec(segs[i + 1].2)
            is None ==> !breaks_after(segs, i),
{
}

/// One or more of the digits `0` to `9`, and nothing else.
pub open spec fn digit_run(s: Seq<char>) -> bool {
    s.len() > 0 && forall|i: int| 0 <= i < s.len() ==> is_ascii_digit_spec(#[trigger] s[i])
}

/// ASCII with no capital letter: lowercasing leaves it as it is.
spec fn lower_ascii(s: Seq<char>) -> bool {
    forall|i: int| 0 <= i < s.len() ==> is_ascii_char(#[trigger] s[i]) && !ascii_upper_letter(s[i])
}

proof fn lemma_lead_exact_pred(s: Seq<char>, p: spec_fn(char) -> bool, i: int, l: int)
    requires
        0 <= i,
        0 <= l,
        i + l <= s.len(),
        forall|j: int| i <= j < i + l ==> #[trigger] p(s[j]),
        i + l == s.len() || !p(s[i + l]),
    ensures
        lead_from(s, p, i) == l,
    decreases l,
{
    if l > 0 {
        assert(p(s[i]));
        lemma_lead_exact_pred(s, p, i + 1, l - 1);
    }
}

proof fn lemma_trim_start_keeps(s: Seq<char>)
    requires
        s.len() > 0,
        !unicode_whitespace(s[0]),
    ensures
        trim_start_seq(s) == s,
{
    assert(lead_from(s, ws(), 0) == 0);
    assert(s.skip(0) =~= s);
}

proof fn lemma_verse_run(v: Seq<char>, i: int, acc: Seq<char>, l: int)
    requires
        0 <= i,
        0 <= l,
        i + l <= v.len(),
        forall|j: int| i <= j < i + l ==> verse_char(#[trigger] v[j]),
    ensures
        verse_scan(v, i, acc) == verse_scan(v, i + l, acc + v.subrange(i, i + l)),
    decreases l,
{
    if l == 0 {
        assert(acc + v.subrange(i, i) =~= acc);
    } else {
        assert(verse_char(v[i]));
        lemma_verse_run(v, i + 1, acc.push(v[i]), l - 1);
        assert(acc.push(v[i]) + v.subrange(i + 1, i + l) =~= acc + v.subrange(i, i + l));
    }
}

proof fn lemma_trim_non_digits_keeps(x: Seq<char>)
    requires
        x.len() > 0,
        is_ascii_digit_spec(x[0]),
        is_ascii_digit_spec(x[x.len() - 1]),
    ensures
        trim_non_digits(x) == x,
{
    assert(lead_from(x, non_digit_pred(), 0) == 0);
    let t = x.skip(0);
    assert(t =~= x);
    assert(trail_from(t, non_digit_pred(), t.len() as int) == 0);
    assert(t.take(t.len() as int) =~= x);
}

/// A chapter number, a colon and a verse part `v` that starts with a digit read as
/// "chapter:verses", the verses being what the verse scan collects from `v`.
proof fn lemma_colon_reference(c: Seq<char>, v: Seq<char>, out: Seq<char>)
    requires
        digit_run(c),
        v.len() > 0,
        is_ascii_digit_spec(v[0]),
        lower_ascii(v),
        verse_scan(v, 0, seq![]) == out,
        out.len() > 0,
        is_ascii_digit_spec(out[0]),
        is_ascii_digit_spec(out[out.len() - 1]),
    ensures
        chapter_verse_spec(c + ":"@ + v) == Some(c + ":"@ + out),
{
    reveal_strlit(":");
    reveal_strlit("chapter ");
    reveal_strlit("ch. ");
    reveal_strlit("ch ");
    let colon: Seq<char> = ":"@;
    assert(colon =~= seq![':']);
    let s = c + colon + v;
    assert(s[0] == c[0]);
    lemma_trim_start_keeps(s);
    assert(lower_ascii(s)) by {
        assert forall|i: int| 0 <= i < s.len() implies is_ascii_char(#[trigger] s[i]) && !ascii_upper_letter(s[i]) by {
            if i < c.len() {
                assert(s[i] == c[i]);
            } else if i == c.len() {
                assert(s[i] == ':');
            } else {
                assert(s[i] == v[i - c.len() - 1]);
            }
        }
    }
    assert(all_ascii(s));
    lemma_lowercase_ascii(s);
    assert(s.map_values(|ch: char| ascii_lower(ch)) =~= s);
    assert(!starts_with_seq(s, "chapter "@)) by {
        if starts_with_seq(s, "chapter "@) {
            assert(s.take(8)[0] == s[0]);
        }
    }
    assert(!starts_with_seq(s, "ch. "@)) by {
        if starts_with_seq(s, "ch. "@) {
            assert(s.take(4)[0] == s[0]);
        }
    }
    assert(!starts_with_seq(s, "ch "@)) by {
        if starts_with_seq(s, "ch "@) {
            assert(s.take(3)[0] == s[0]);
        }
    }
    assert(strip_chapter_word(lowercase_of(trim_start_seq(s))) == s);
    assert forall|j: int| 0 <= j < c.len() implies #[trigger] digit_pred()(s[j]) by {
        assert(s[j] == c[j]);
    }
    assert(s[c.len() as int] == ':');
    lemma_lead_exact_pred(s, digit_pred(), 0, c.len() as int);
    assert(s.take(c.len() as int) =~= c);
    let rem = s.skip(c.len() as int);
    assert(rem =~= colon + v);
    lemma_trim_start_keeps(rem);
    assert(rem.take(1) =~= colon);
    assert(rem.skip(1) =~= v);
    lemma_trim_start_keeps(v);
    assert(verse_separator(rem) == Some(v));
    lemma_trim_non_digits_keeps(out);
    assert(c + seq![':'] + out == c + colon + out);
}

/// A spoken verse range: after a chapter number and a colon, "a to b" is read as the range
/// "a-b", the same reference that "c:a-b" written out gives.
pub proof fn lemma_spoken_verse_range(c: Seq<char>, a: Seq<char>, b: Seq<char>)
    requires
        digit_run(c),
        digit_run(a),
        digit_run(b),
    ensures
        chapter_verse_spec(c + ":"@ + a + " to "@ + b) == Some(c + ":"@ + a + "-"@ + b),
        chapter_verse_spec(c + ":"@ + a + "-"@ + b) == Some(c + ":"@ + a + "-"@ + b),
{
    reveal_strlit(" to ");
    reveal_strlit("-");
    let to: Seq<char> = " to "@;
    let dash: Seq<char> = "-"@;
    assert(to =~= seq![' ', 't', 'o', ' ']);
    assert(dash =~= seq!['-']);
    let out = a + dash + b;
    let la = a.len() as int;
    assert(out[0] == a[0]);
    assert(out[out.len() - 1] == b[b.len() - 1]);
    // "a to b"
    let v = a + to + b;
    assert(lower_ascii(v)) by {
        assert forall|i: int| 0 <= i < v.len() implies is_ascii_char(#[trigger] v[i]) && !ascii_upper_letter(v[i]) by {
            if i < la {
                assert(v[i] == a[i]);
            } else if i < la + 4 {
                assert(v[i] == to[i - la]);
            } else {
                assert(v[i] == b[i - la - 4]);
            }
        }
    }
    assert(forall|j: int| 0 <= j < la ==> verse_char(#[trigger] v[j])) by {
        assert forall|j: int| 0 <= j < la implies verse_char(#[trigger] v[j]) by {
            assert(v[j] == a[j]);
        }
    }
    let e: Seq<char> = seq![];
    lemma_verse_run(v, 0, e, la);
    assert(e + v.subrange(0, la) =~= a);
    assert(v[la] == ' ' && v[la + 1] == 't' && v[la + 2] == 'o' && v[la + 3] == ' ');
    assert(verse_scan(v, la, a) == verse_scan(v, la + 4, a.push('-')));
    assert(forall|j: int| la + 4 <= j < la + 4 + b.len() ==> verse_char(#[trigger] v[j])) by {
        assert forall|j: int| la + 4 <= j < la + 4 + b.len() implies verse_char(#[trigger] v[j]) by {
            assert(v[j] == b[j - la - 4]);
        }
    }
    lemma_verse_run(v, la + 4, a.push('-'), b.len() as int);
    assert(v.subrange(la + 4, la + 4 + b.len()) =~= b);
    assert(a.push('-') + b =~= out);
    assert(verse_scan(v, 0, e) == out);
    assert(v[0] == a[0]);
    lemma_colon_reference(c, v, out);
    assert(c + ":"@ + a + to + b =~= c + ":"@ + v);
    assert(c + ":"@ + a + dash + b =~= c + ":"@ + out);
    // "a-b"
    assert(lower_ascii(out)) by {
        assert forall|i: int| 0 <= i < out.len() implies is_ascii_char(#[trigger] out[i]) && !ascii_upper_letter(out[i]) by {
            if i < la {
                assert(out[i] == a[i]);
            } else if i == la {
                assert(out[i] == '-');
            } else {
                assert(out[i] == b[i - la - 1]);
            }
        }
    }
    assert(forall|j: int| 0 <= j < out.len() ==> verse_char(#[trigger] out[j])) by {
        assert forall|j: int| 0 <= j < out.len() implies verse_char(#[trigger] out[j]) by {
            if j < la {
                assert(out[j] == a[j]);
            } else if j == la {
                assert(out[j] == '-');
            } else {
                assert(out[j] == b[j - la - 1]);
            }
        }
    }
    lemma_verse_run(out, 0, e, out.len() as int);
    assert(e + out.subrange(0, out.len() as int) =~= out);
    lemma_colon_reference(c, out, out);
}

} // verus!
