use vstd::prelude::*;

verus! {

// ---------------------------------------------------------------------------
// Unicode character classes and case mappings, as std defines them.
// ---------------------------------------------------------------------------

/// `char::is_whitespace`: the Unicode `White_Space` property, which holds of U+0009 to
/// U+000D, U+0020, U+0085, U+00A0, U+1680, U+2000 to U+200A, U+2028, U+2029, U+202F, U+205F
/// and U+3000.
pub open spec fn unicode_whitespace(c: char) -> bool {
    ||| '\u{9}' <= c <= '\u{d}'
    ||| c == ' '
    ||| c == '\u{85}'
    ||| c == '\u{a0}'
    ||| c == '\u{1680}'
    ||| '\u{2000}' <= c <= '\u{200a}'
    ||| c == '\u{2028}'
    ||| c == '\u{2029}'
    ||| c == '\u{202f}'
    ||| c == '\u{205f}'
    ||| c == '\u{3000}'
}

/// An ASCII character (below U+0080).
pub open spec fn is_ascii_char(c: char) -> bool {
    c < '\u{80}'
}

/// Every character of the text is ASCII.
pub open spec fn all_ascii(s: Seq<char>) -> bool {
    forall|i: int| 0 <= i < s.len() ==> is_ascii_char(#[trigger] s[i])
}

/// An ASCII letter `A` to `Z`.
pub open spec fn ascii_upper_letter(c: char) -> bool {
    'A' <= c <= 'Z'
}

/// An ASCII letter `a` to `z`.
pub open spec fn ascii_lower_letter(c: char) -> bool {
    'a' <= c <= 'z'
}

/// `char::to_ascii_lowercase`.
pub open spec fn ascii_lower(c: char) -> char {
    if ascii_upper_letter(c) {
        (c as u32 + 32) as char
    } else {
        c
    }
}

/// `char::to_ascii_uppercase`.
pub open spec fn ascii_upper(c: char) -> char {
    if ascii_lower_letter(c) {
        (c as u32 - 32) as char
    } else {
        c
    }
}

/// `char::is_alphanumeric` beyond ASCII: the Unicode `Alphabetic` or `Numeric` property.
pub uninterp spec fn alphanumeric_beyond_ascii(c: char) -> bool;

/// `char::is_uppercase` beyond ASCII: the Unicode `Uppercase` property.
pub uninterp spec fn uppercase_beyond_ascii(c: char) -> bool;

/// `char::is_numeric` beyond ASCII: the Unicode general categories `Nd`, `Nl` and `No`.
pub uninterp spec fn numeric_beyond_ascii(c: char) -> bool;

/// `str::to_lowercase` on a text that is not all ASCII.
pub uninterp spec fn lowercase_beyond_ascii(s: Seq<char>) -> Seq<char>;

/// `str::to_uppercase` on a text that is not all ASCII.
pub uninterp spec fn uppercase_beyond_ascii_text(s: Seq<char>) -> Seq<char>;

/// `char::to_uppercase` of a character beyond ASCII, collected into the characters it yields.
pub uninterp spec fn char_uppercase_beyond_ascii(c: char) -> Seq<char>;

/// `char::is_alphanumeric`: on ASCII, the letters and digits; beyond it, the Unicode
/// `Alphabetic` or `Numeric` property.
pub open spec fn unicode_alphanumeric(c: char) -> bool {
    if is_ascii_char(c) {
        ascii_upper_letter(c) || ascii_lower_letter(c) || is_ascii_digit_spec(c)
    } else {
        alphanumeric_beyond_ascii(c)
    }
}

/// `char::is_uppercase`: on ASCII, the letters `A` to `Z`; beyond it, the Unicode `Uppercase`
/// property.
pub open spec fn unicode_uppercase(c: char) -> bool {
    if is_ascii_char(c) {
        ascii_upper_letter(c)
    } else {
        uppercase_beyond_ascii(c)
    }
}

/// `char::is_numeric`: on ASCII, the digits; beyond it, the numeric general categories.
pub open spec fn unicode_numeric(c: char) -> bool {
    if is_ascii_char(c) {
        is_ascii_digit_spec(c)
    } else {
        numeric_beyond_ascii(c)
    }
}

/// `str::to_lowercase`: on an all-ASCII text, each letter `A` to `Z` made lowercase.
#[verifier::opaque]
pub open spec fn lowercase_of(s: Seq<char>) -> Seq<char> {
    if all_ascii(s) {
        s.map_values(|c: char| ascii_lower(c))
    } else {
        lowercase_beyond_ascii(s)
    }
}

/// `str::to_uppercase`: on an all-ASCII text, each letter `a` to `z` made uppercase.
#[verifier::opaque]
pub open spec fn uppercase_of(s: Seq<char>) -> Seq<char> {
    if all_ascii(s) {
        s.map_values(|c: char| ascii_upper(c))
    } else {
        uppercase_beyond_ascii_text(s)
    }
}

/// `char::to_uppercase`, collected: an ASCII character gives its ASCII uppercase.
pub open spec fn char_uppercase_of(c: char) -> Seq<char> {
    if is_ascii_char(c) {
        seq![ascii_upper(c)]
    } else {
        char_uppercase_beyond_ascii(c)
    }
}

/// The lowercase form of an all-ASCII text.
pub proof fn lemma_lowercase_ascii(s: Seq<char>)
    requires
        all_ascii(s),
    ensures
        lowercase_of(s) == s.map_values(|c: char| ascii_lower(c)),
{
    reveal(lowercase_of);
}

/// The uppercase form of an all-ASCII text.
pub proof fn lemma_uppercase_ascii(s: Seq<char>)
    requires
        all_ascii(s),
    ensures
        uppercase_of(s) == s.map_values(|c: char| ascii_upper(c)),
{
    reveal(uppercase_of);
}

/// Whether a character is white space, as `char::is_whitespace` decides.
pub fn is_whitespace(c: char) -> (r: bool)
    ensures
        r == unicode_whitespace(c),
{
    ('\u{9}' <= c && c <= '\u{d}') || c == ' ' || c == '\u{85}' || c == '\u{a0}' || c
        == '\u{1680}' || ('\u{2000}' <= c && c <= '\u{200a}') || c == '\u{2028}' || c
        == '\u{2029}' || c == '\u{202f}' || c == '\u{205f}' || c == '\u{3000}'
}

/// Calls `char::is_alphanumeric`: for an ASCII character, whether it is a letter or a digit;
/// beyond ASCII, the named Unicode property.
#[verifier::external_body]
pub(crate) fn is_alphanumeric(c: char) -> (r: bool)
    ensures
        r == unicode_alphanumeric(c),
        !is_ascii_char(c) ==> r == alphanumeric_beyond_ascii(c),
{
    c.is_alphanumeric()
}

/// Calls `char::is_uppercase`: for an ASCII character, whether it is `A` to `Z`; beyond
/// ASCII, the named Unicode property.
#[verifier::external_body]
pub(crate) fn is_uppercase(c: char) -> (r: bool)
    ensures
        r == unicode_uppercase(c),
        !is_ascii_char(c) ==> r == uppercase_beyond_ascii(c),
{
    c.is_uppercase()
}

/// Calls `char::is_numeric`: for an ASCII character, whether it is a digit; beyond ASCII,
/// the named Unicode categories.
#[verifier::external_body]
pub(crate) fn is_numeric(c: char) -> (r: bool)
    ensures
        r == unicode_numeric(c),
        !is_ascii_char(c) ==> r == numeric_beyond_ascii(c),
{
    c.is_numeric()
}

/// Calls `str::to_lowercase`: an all-ASCII text with each `A` to `Z` made lowercase; any
/// other text, the named Unicode mapping.
#[verifier::external_body]
pub(crate) fn to_lowercase(s: &str) -> (r: String)
    ensures
        r@ == lowercase_of(s@),
        !all_ascii(s@) ==> r@ == lowercase_beyond_ascii(s@),
{
    s.to_lowercase()
}

/// Calls `str::to_uppercase`: an all-ASCII text with each `a` to `z` made uppercase; any
/// other text, the named Unicode mapping.
#[verifier::external_body]
pub(crate) fn to_uppercase(s: &str) -> (r: String)
    ensures
        r@ == uppercase_of(s@),
        !all_ascii(s@) ==> r@ == uppercase_beyond_ascii_text(s@),
{
    s.to_uppercase()
}

/// Calls `char::to_uppercase` and collects what it yields: for an ASCII character its ASCII
/// uppercase alone; beyond ASCII, the named Unicode mapping.
#[verifier::external_body]
pub(crate) fn char_to_uppercase(c: char) -> (r: Vec<char>)
    ensures
        r@ == char_uppercase_of(c),
        !is_ascii_char(c) ==> r@ == char_uppercase_beyond_ascii(c),
{
    c.to_uppercase().collect()
}

/// Collects characters into a `String` (`FromIterator<char> for String`); the string holds
/// exactly those characters in order.
#[verifier::external_body]
pub(crate) fn string_of(v: &[char]) -> (r: String)
    ensures
        r@ == v@,
{
    v.iter().collect()
}

/// The characters of a string slice, in order.
pub fn chars_of(s: &str) -> (res: Vec<char>)
    ensures
        res@ == s@,
{
    let mut res: Vec<char> = Vec::new();
    for c in it: s.chars()
        invariant
            res@ == it.seq().take(it.index() as int),
    {
        res.push(c);
    }
    res
}

// ---------------------------------------------------------------------------
// ASCII classes that the logic tests directly.
// ---------------------------------------------------------------------------

pub open spec fn is_ascii_digit_spec(c: char) -> bool {
    '0' <= c && c <= '9'
}

pub fn is_ascii_digit(c: char) -> (r: bool)
    ensures
        r == is_ascii_digit_spec(c),
{
    '0' <= c && c <= '9'
}


// ---------------------------------------------------------------------------
// Runs of characters that satisfy a predicate.
// ---------------------------------------------------------------------------

/// How many characters from index `i` on satisfy `p` before the first that does not.
pub open spec fn lead_from(s: Seq<char>, p: spec_fn(char) -> bool, i: int) -> nat
    decreases s.len() - i,
{
    if 0 <= i < s.len() && p(s[i]) {
        1 + lead_from(s, p, i + 1)
    } else {
        0
    }
}

/// How many characters just below index `j` satisfy `p`, counted downwards.
pub open spec fn trail_from(s: Seq<char>, p: spec_fn(char) -> bool, j: int) -> nat
    decreases j,
{
    if 0 < j <= s.len() && p(s[j - 1]) {
        1 + trail_from(s, p, j - 1)
    } else {
        0
    }
}

pub proof fn lemma_lead_from(s: Seq<char>, p: spec_fn(char) -> bool, i: int)
    requires
        0 <= i <= s.len(),
    ensures
        i + lead_from(s, p, i) <= s.len(),
        forall|k: int| i <= k < i + lead_from(s, p, i) ==> #[trigger] p(s[k]),
        i + lead_from(s, p, i) < s.len() ==> !p(s[i + lead_from(s, p, i)]),
    decreases s.len() - i,
{
    if i < s.len() && p(s[i]) {
        lemma_lead_from(s, p, i + 1);
    }
}

pub proof fn lemma_trail_from(s: Seq<char>, p: spec_fn(char) -> bool, j: int)
    requires
        0 <= j <= s.len(),
    ensures
        trail_from(s, p, j) <= j,
        forall|k: int| j - trail_from(s, p, j) <= k < j ==> #[trigger] p(s[k]),
        trail_from(s, p, j) < j ==> !p(s[j - trail_from(s, p, j) - 1]),
    decreases j,
{
    if j > 0 && p(s[j - 1]) {
        lemma_trail_from(s, p, j - 1);
    }
}

pub open spec fn ws() -> spec_fn(char) -> bool {
    |c: char| unicode_whitespace(c)
}

pub open spec fn non_ws() -> spec_fn(char) -> bool {
    |c: char| !unicode_whitespace(c)
}

/// `str::trim_start`.
pub open spec fn trim_start_seq(s: Seq<char>) -> Seq<char> {
    s.skip(lead_from(s, ws(), 0) as int)
}

/// `str::trim_end`.
pub open spec fn trim_end_seq(s: Seq<char>) -> Seq<char> {
    s.take(s.len() - trail_from(s, ws(), s.len() as int))
}

/// `str::trim`.
pub open spec fn trim_seq(s: Seq<char>) -> Seq<char> {
    trim_end_seq(trim_start_seq(s))
}

/// The characters of `s` from `a` up to `b`.
pub fn copy_range(s: &[char], a: usize, b: usize) -> (r: Vec<char>)
    requires
        a <= b <= s@.len(),
    ensures
        r@ == s@.subrange(a as int, b as int),
{
    let mut r: Vec<char> = Vec::new();
    let mut k = a;
    while k < b
        invariant
            a <= k <= b <= s@.len(),
            r@ == s@.subrange(a as int, k as int),
        decreases b - k,
    {
        r.push(s[k]);
        assert(r@ =~= s@.subrange(a as int, k + 1));
        k += 1;
    }
    r
}

/// Index of the first non-whitespace character at or after `i` (or the length).
pub fn skip_ws(s: &[char], i: usize) -> (r: usize)
    requires
        i <= s@.len(),
    ensures
        r == i + lead_from(s@, ws(), i as int),
{
    let mut k = i;
    while k < s.len() && is_whitespace(s[k])
        invariant
            i <= k <= s@.len(),
            lead_from(s@, ws(), i as int) == (k - i) + lead_from(s@, ws(), k as int),
        decreases s@.len() - k,
    {
        k += 1;
    }
    k
}

/// Index just past the last non-whitespace character below `j` (or 0).
pub fn skip_ws_back(s: &[char], j: usize) -> (r: usize)
    requires
        j <= s@.len(),
    ensures
        r == j - trail_from(s@, ws(), j as int),
{
    let mut k = j;
    while k > 0 && is_whitespace(s[k - 1])
        invariant
            k <= j <= s@.len(),
            trail_from(s@, ws(), j as int) == (j - k) + trail_from(s@, ws(), k as int),
        decreases k,
    {
        k -= 1;
    }
    k
}

/// `str::trim`, on characters.
pub fn trim(s: &[char]) -> (r: Vec<char>)
    ensures
        r@ == trim_seq(s@),
{
    let a = skip_ws(s, 0);
    proof {
        lemma_lead_from(s@, ws(), 0);
    }
    let t = copy_range(s, a, s.len());
    let b = skip_ws_back(&t, t.len());
    proof {
        lemma_trail_from(t@, ws(), t@.len() as int);
    }
    copy_range(&t, 0, b)
}

/// `str::trim_end`, on characters.
pub fn trim_end(s: &[char]) -> (r: Vec<char>)
    ensures
        r@ == trim_end_seq(s@),
{
    let b = skip_ws_back(s, s.len());
    proof {
        lemma_trail_from(s@, ws(), s@.len() as int);
    }
    copy_range(s, 0, b)
}

/// `str::trim_start`, on characters.
pub fn trim_start(s: &[char]) -> (r: Vec<char>)
    ensures
        r@ == trim_start_seq(s@),
{
    let a = skip_ws(s, 0);
    proof {
        lemma_lead_from(s@, ws(), 0);
    }
    copy_range(s, a, s.len())
}


// ---------------------------------------------------------------------------
// Substring search.
// ---------------------------------------------------------------------------

/// `n` occurs in `h` at index `i`.
pub open spec fn matches_at(h: Seq<char>, n: Seq<char>, i: int) -> bool {
    0 <= i && i + n.len() <= h.len() && h.subrange(i, i + n.len()) == n
}

/// The first index at or after `i` where `n` occurs in `h`.
pub open spec fn find_from(h: Seq<char>, n: Seq<char>, i: int) -> Option<int>
    decreases h.len() + 1 - i,
{
    if i < 0 || i + n.len() > h.len() {
        None
    } else if matches_at(h, n, i) {
        Some(i)
    } else {
        find_from(h, n, i + 1)
    }
}

/// `str::find` (as a character index).
pub open spec fn find_seq(h: Seq<char>, n: Seq<char>) -> Option<int> {
    find_from(h, n, 0)
}

/// `str::contains`.
pub open spec fn contains_seq(h: Seq<char>, n: Seq<char>) -> bool {
    find_seq(h, n) is Some
}

/// `str::starts_with`.
pub open spec fn starts_with_seq(h: Seq<char>, p: Seq<char>) -> bool {
    p.len() <= h.len() && h.take(p.len() as int) == p
}

/// `str::ends_with`.
pub open spec fn ends_with_seq(h: Seq<char>, p: Seq<char>) -> bool {
    p.len() <= h.len() && h.skip(h.len() - p.len()) == p
}

/// The last index at or below `i` where `n` occurs in `h`.
pub open spec fn rfind_below(h: Seq<char>, n: Seq<char>, i: int) -> Option<int>
    decreases i + 1,
{
    if i < 0 {
        None
    } else if matches_at(h, n, i) {
        Some(i)
    } else {
        rfind_below(h, n, i - 1)
    }
}

/// `str::rfind` (as a character index).
pub open spec fn rfind_seq(h: Seq<char>, n: Seq<char>) -> Option<int> {
    rfind_below(h, n, h.len() - n.len())
}

pub proof fn lemma_find_from(h: Seq<char>, n: Seq<char>, i: int)
    requires
        0 <= i,
    ensures
        find_from(h, n, i) matches Some(k) ==> i <= k && matches_at(h, n, k) && forall|j: int|
            i <= j < k ==> !#[trigger] matches_at(h, n, j),
        find_from(h, n, i) is None ==> forall|j: int| i <= j ==> !#[trigger] matches_at(h, n, j),
    decreases h.len() + 1 - i,
{
    if i + n.len() <= h.len() && !matches_at(h, n, i) {
        lemma_find_from(h, n, i + 1);
    }
}

pub proof fn lemma_rfind_below(h: Seq<char>, n: Seq<char>, i: int)
    ensures
        rfind_below(h, n, i) matches Some(k) ==> 0 <= k <= i && matches_at(h, n, k) && forall|
            j: int,
        | k < j <= i ==> !#[trigger] matches_at(h, n, j),
        rfind_below(h, n, i) is None ==> forall|j: int| j <= i ==> !#[trigger] matches_at(h, n, j),
    decreases i + 1,
{
    if i >= 0 && !matches_at(h, n, i) {
        lemma_rfind_below(h, n, i - 1);
    }
}

/// Whether `n` occurs in `h` at index `i`.
pub fn matches_at_exec(h: &[char], n: &[char], i: usize) -> (r: bool)
    ensures
        r == matches_at(h@, n@, i as int),
{
    if n.len() > h.len() || i > h.len() - n.len() {
        return false;
    }
    let mut j: usize = 0;
    assert(h@.len() == h.len());
    while j < n.len()
        invariant
            h@.len() == h.len(),
            i + n@.len() <= h@.len(),
            j <= n@.len(),
            h@.subrange(i as int, i + j) == n@.take(j as int),
        decreases n@.len() - j,
    {
        if h[i + j] != n[j] {
            assert(h@.subrange(i as int, i + n@.len())[j as int] != n@[j as int]);
            return false;
        }
        assert(h@.subrange(i as int, i + j + 1) =~= n@.take(j + 1));
        j += 1;
    }
    assert(n@.take(n@.len() as int) =~= n@);
    true
}

/// `str::find` from index `start` (as a character index).
pub fn find_from_exec(h: &[char], n: &[char], start: usize) -> (r: Option<usize>)
    ensures
        r matches Some(k) ==> find_from(h@, n@, start as int) == Some(k as int),
        r matches Some(k) ==> start <= k && k + n@.len() <= h.len() && matches_at(h@, n@, k as int),
        r is None ==> find_from(h@, n@, start as int) is None,
{
    proof {
        lemma_find_from(h@, n@, start as int);
    }
    assert(h@.len() == h.len());
    let mut i = start;
    if n.len() > h.len() || start > h.len() - n.len() {
        return None;
    }
    loop
        invariant
            start <= i <= h@.len() - n@.len(),
            n@.len() <= h@.len(),
            find_from(h@, n@, start as int) == find_from(h@, n@, i as int),
        decreases h@.len() - i,
    {
        if matches_at_exec(h, n, i) {
            return Some(i);
        }
        if i >= h.len() - n.len() {
            assert(find_from(h@, n@, i + 1) is None);
            return None;
        }
        i += 1;
    }
}

/// `str::find` (as a character index).
pub fn find(h: &[char], n: &[char]) -> (r: Option<usize>)
    ensures
        r matches Some(k) ==> find_seq(h@, n@) == Some(k as int),
        r matches Some(k) ==> k + n@.len() <= h.len() && matches_at(h@, n@, k as int),
        r is None ==> find_seq(h@, n@) is None,
{
    find_from_exec(h, n, 0)
}

/// `str::contains`.
pub fn contains(h: &[char], n: &[char]) -> (r: bool)
    ensures
        r == contains_seq(h@, n@),
{
    find(h, n).is_some()
}

/// `str::rfind` (as a character index).
pub fn rfind(h: &[char], n: &[char]) -> (r: Option<usize>)
    ensures
        r matches Some(k) ==> rfind_seq(h@, n@) == Some(k as int),
        r is None ==> rfind_seq(h@, n@) is None,
{
    if n.len() > h.len() {
        return None;
    }
    let mut i = h.len() - n.len();
    loop
        invariant
            i <= h@.len() - n@.len(),
            n@.len() <= h@.len(),
            rfind_seq(h@, n@) == rfind_below(h@, n@, i as int),
        decreases i,
    {
        if matches_at_exec(h, n, i) {
            return Some(i);
        }
        if i == 0 {
            assert(rfind_below(h@, n@, -1) is None);
            return None;
        }
        i -= 1;
    }
}

/// `str::starts_with`.
pub fn starts_with(h: &[char], p: &[char]) -> (r: bool)
    ensures
        r == starts_with_seq(h@, p@),
{
    let r = matches_at_exec(h, p, 0);
    proof {
        if p@.len() <= h@.len() {
            assert(h@.subrange(0, p@.len() as int) =~= h@.take(p@.len() as int));
        }
    }
    r
}

/// `str::ends_with`.
pub fn ends_with(h: &[char], p: &[char]) -> (r: bool)
    ensures
        r == ends_with_seq(h@, p@),
{
    if p.len() > h.len() {
        return false;
    }
    let r = matches_at_exec(h, p, h.len() - p.len());
    proof {
        assert(h@.subrange(h@.len() - p@.len(), h@.len() as int) =~= h@.skip(
            h@.len() - p@.len(),
        ));
    }
    r
}

/// Appends characters to a vector.
pub fn push_all(v: &mut Vec<char>, s: &[char])
    ensures
        final(v)@ == old(v)@ + s@,
{
    let mut k: usize = 0;
    while k < s.len()
        invariant
            k <= s@.len(),
            v@ == old(v)@ + s@.take(k as int),
        decreases s@.len() - k,
    {
        v.push(s[k]);
        assert(s@.take(k + 1) =~= s@.take(k as int).push(s@[k as int]));
        k += 1;
    }
    assert(s@.take(s@.len() as int) =~= s@);
}

/// Appends the characters of a string slice to a vector.
pub fn push_str(v: &mut Vec<char>, s: &str)
    ensures
        final(v)@ == old(v)@ + s@,
{
    let cs = chars_of(s);
    push_all(v, &cs);
}




// ---------------------------------------------------------------------------
// Decimal numbers.
// ---------------------------------------------------------------------------

pub open spec fn all_digits(s: Seq<char>) -> bool {
    forall|i: int| 0 <= i < s.len() ==> is_ascii_digit_spec(#[trigger] s[i])
}

/// The value of a run of decimal digits.
pub open spec fn digits_val(s: Seq<char>) -> nat
    decreases s.len(),
{
    if s.len() == 0 {
        0
    } else {
        digits_val(s.drop_last()) * 10 + (s.last() as nat - '0' as nat) as nat
    }
}

pub proof fn lemma_digits_val_prefix(s: Seq<char>, i: int, j: int)
    requires
        0 <= i <= j <= s.len(),
        all_digits(s),
    ensures
        digits_val(s.take(i)) <= digits_val(s.take(j)),
    decreases j - i,
{
    if i < j {
        lemma_digits_val_prefix(s, i, j - 1);
        assert(s.take(j).drop_last() =~= s.take(j - 1));
        assert(is_ascii_digit_spec(s[j - 1]));
    }
}

/// The value of a non-empty run of decimal digits, if it fits in a `u64`.
pub fn parse_digits(s: &[char]) -> (r: Option<u64>)
    ensures
        r is Some <==> (s@.len() > 0 && all_digits(s@) && digits_val(s@) <= u64::MAX),
        r matches Some(v) ==> v as nat == digits_val(s@),
{
    if s.len() == 0 {
        return None;
    }
    let mut v: u64 = 0;
    let mut i: usize = 0;
    while i < s.len()
        invariant
            i <= s@.len(),
            forall|k: int| 0 <= k < i ==> is_ascii_digit_spec(#[trigger] s@[k]),
            v as nat == digits_val(s@.take(i as int)),
        decreases s@.len() - i,
    {
        let c = s[i];
        assert(s@.take(i + 1).drop_last() =~= s@.take(i as int));
        assert(s@.take(i + 1).last() == c);
        if !is_ascii_digit(c) {
            assert(!all_digits(s@));
            return None;
        }
        let d = (c as u32 - '0' as u32) as u64;
        match v.checked_mul(10) {
            None => {
                proof {
                    if all_digits(s@) {
                        lemma_digits_val_prefix(s@, i + 1, s@.len() as int);
                        assert(s@.take(s@.len() as int) =~= s@);
                    }
                }
                return None;
            },
            Some(t) => match t.checked_add(d) {
                None => {
                    proof {
                        if all_digits(s@) {
                            lemma_digits_val_prefix(s@, i + 1, s@.len() as int);
                            assert(s@.take(s@.len() as int) =~= s@);
                        }
                    }
                    return None;
                },
                Some(u) => {
                    v = u;
                },
            },
        }
        i += 1;
    }
    assert(s@.take(s@.len() as int) =~= s@);
    Some(v)
}

/// The first three digits of a fraction, padded with zeros: its thousandths.
pub open spec fn frac_milli(f: Seq<char>) -> nat {
    let t = if f.len() >= 3 {
        f.take(3)
    } else {
        f + Seq::new((3 - f.len()) as nat, |i: int| '0')
    };
    digits_val(t)
}

/// An unsigned decimal number (`12`, `12.5`, `.5`, `12.`), in thousandths, digits past the
/// third decimal dropped.
pub open spec fn decimal_milli(s: Seq<char>) -> Option<nat> {
    match find_seq(s, seq!['.']) {
        None => if s.len() > 0 && all_digits(s) {
            Some(digits_val(s) * 1000)
        } else {
            None
        },
        Some(k) => {
            let ip = s.take(k);
            let fp = s.skip(k + 1);
            if all_digits(ip) && all_digits(fp) && ip.len() + fp.len() > 0 {
                Some(digits_val(ip) * 1000 + frac_milli(fp))
            } else {
                None
            }
        },
    }
}

proof fn lemma_frac_milli_bound(f: Seq<char>)
    requires
        all_digits(f),
    ensures
        frac_milli(f) < 1000,
{
    let t = if f.len() >= 3 {
        f.take(3)
    } else {
        f + Seq::new((3 - f.len()) as nat, |i: int| '0')
    };
    assert(t.len() == 3);
    assert forall|i: int| 0 <= i < 3 implies is_ascii_digit_spec(#[trigger] t[i]) by {
        if f.len() >= 3 {
            assert(t[i] == f[i]);
        } else if i < f.len() {
            assert(t[i] == f[i]);
        } else {
            assert(t[i] == '0');
        }
    }
    let t1 = t.drop_last();
    let t0 = t1.drop_last();
    let e = t0.drop_last();
    assert(e =~= seq![]);
    assert(digits_val(e) == 0);
    assert(t0.last() == t[0]);
    assert(t1.last() == t[1]);
    assert(digits_val(t0) == digits_val(e) * 10 + (t[0] as nat - '0' as nat) as nat);
    assert(digits_val(t0) <= 9);
    assert(digits_val(t1) == digits_val(t0) * 10 + (t[1] as nat - '0' as nat) as nat);
    assert(digits_val(t1) <= 99);
    assert(digits_val(t) == digits_val(t1) * 10 + (t[2] as nat - '0' as nat) as nat);
}

/// Whether every character is an ASCII digit.
pub fn all_digits_exec(s: &[char]) -> (r: bool)
    ensures
        r == all_digits(s@),
{
    let mut i: usize = 0;
    while i < s.len()
        invariant
            i <= s@.len(),
            forall|k: int| 0 <= k < i ==> is_ascii_digit_spec(#[trigger] s@[k]),
        decreases s@.len() - i,
    {
        if !is_ascii_digit(s[i]) {
            return false;
        }
        i += 1;
    }
    true
}

/// Parses an unsigned decimal number into thousandths, if it fits in a `u64`.
pub fn parse_decimal_milli(s: &[char]) -> (r: Option<u64>)
    ensures
        r is Some <==> (decimal_milli(s@) matches Some(v) && v <= u64::MAX),
        r matches Some(v) ==> decimal_milli(s@) == Some(v as nat),
{
    let dot = vec!['.'];
    assert(dot@ =~= seq!['.']);
    match find(s, &dot) {
        None => {
            if s.len() == 0 {
                return None;
            }
            match parse_digits(s) {
                None => None,
                Some(v) => v.checked_mul(1000),
            }
        },
        Some(k) => {
            let ip = copy_range(s, 0, k);
            let fp = copy_range(s, k + 1, s.len());
            assert(ip@ =~= s@.take(k as int));
            assert(fp@ =~= s@.skip(k + 1));
            if ip.len() + fp.len() == 0 || !all_digits_exec(&ip) || !all_digits_exec(&fp) {
                return None;
            }
            let iv: u64 = if ip.len() == 0 {
                0
            } else {
                match parse_digits(&ip) {
                    None => {
                        return None;
                    },
                    Some(v) => v,
                }
            };
            let mut f3 = copy_range(&fp, 0, if fp.len() >= 3 { 3 } else { fp.len() });
            while f3.len() < 3
                invariant
                    f3@.len() <= 3,
                    fp@.len() < 3 ==> f3@ == fp@ + Seq::new(
                        (f3@.len() - fp@.len()) as nat,
                        |i: int| '0',
                    ),
                    fp@.len() < 3 ==> f3@.len() >= fp@.len(),
                    fp@.len() >= 3 ==> f3@ == fp@.take(3),
                decreases 3 - f3@.len(),
            {
                f3.push('0');
                assert(fp@.len() < 3 ==> fp@ + Seq::new((f3@.len() - fp@.len()) as nat, |i: int| '0')
                    =~= f3@);
            }
            proof {
                lemma_frac_milli_bound(fp@);
                assert(all_digits(f3@));
            }
            match parse_digits(&f3) {
                None => None,
                Some(f) => match iv.checked_mul(1000) {
                    None => None,
                    Some(a) => a.checked_add(f),
                },
            }
        },
    }
}


// ---------------------------------------------------------------------------
// Numbers as `f32::from_str` reads them, in thousandths.
// ---------------------------------------------------------------------------

/// `n` zero digits.
pub open spec fn zeros(n: nat) -> Seq<char> {
    Seq::new(n, |i: int| '0')
}

/// `10` to the power `n`.
pub open spec fn pow10(n: nat) -> nat
    decreases n,
{
    if n == 0 {
        1
    } else {
        10 * pow10((n - 1) as nat)
    }
}

/// Index of the first `e` or `E` from `i` on.
pub open spec fn exp_mark_from(s: Seq<char>, i: int) -> Option<int>
    decreases s.len() - i,
{
    if i < 0 || i >= s.len() {
        None
    } else if s[i] == 'e' || s[i] == 'E' {
        Some(i)
    } else {
        exp_mark_from(s, i + 1)
    }
}

/// The digits of a decimal mantissa (`12`, `12.5`, `.5`, `12.`) with the point taken out,
/// and how many of them follow the point.
pub open spec fn mantissa_digits(m: Seq<char>) -> Option<(Seq<char>, nat)> {
    match find_seq(m, seq!['.']) {
        None => if m.len() > 0 && all_digits(m) {
            Some((m, 0))
        } else {
            None
        },
        Some(k) => {
            let ip = m.take(k);
            let fp = m.skip(k + 1);
            if all_digits(ip) && all_digits(fp) && ip.len() + fp.len() > 0 {
                Some((ip + fp, fp.len()))
            } else {
                None
            }
        },
    }
}

/// The sign (`true` for minus) and digits of an exponent: an optional sign, then at least one
/// digit.
pub open spec fn exponent_parts(x: Seq<char>) -> Option<(bool, Seq<char>)> {
    if x.len() > 0 && (x[0] == '+' || x[0] == '-') {
        let d = x.skip(1);
        if d.len() > 0 && all_digits(d) {
            Some((x[0] == '-', d))
        } else {
            None
        }
    } else if x.len() > 0 && all_digits(x) {
        Some((false, x))
    } else {
        None
    }
}

/// The whole number that the digits `ds` make once the point moves `k` places to the right;
/// digits left behind the point are dropped.
pub open spec fn shifted_val(ds: Seq<char>, k: int) -> nat {
    if k >= 0 {
        digits_val(ds + zeros(k as nat))
    } else if ds.len() + k > 0 {
        digits_val(ds.take(ds.len() + k))
    } else {
        0
    }
}

/// A number as `f32::from_str` reads it, when it is finite and carries no minus sign: an
/// optional `+`, a decimal mantissa, and an optional exponent (`e` or `E`, an optional sign,
/// digits). The value is in thousandths, rounded down.
pub open spec fn float_milli(s: Seq<char>) -> Option<nat> {
    let b = if s.len() > 0 && s[0] == '+' {
        s.skip(1)
    } else {
        s
    };
    let m = match exp_mark_from(b, 0) {
        None => b,
        Some(j) => b.take(j),
    };
    let e: Option<int> = match exp_mark_from(b, 0) {
        None => Some(0),
        Some(j) => match exponent_parts(b.skip(j + 1)) {
            Some(p) => Some(
                if p.0 {
                    -(digits_val(p.1) as int)
                } else {
                    digits_val(p.1) as int
                },
            ),
            None => None,
        },
    };
    match (mantissa_digits(m), e) {
        (Some(md), Some(x)) => Some(shifted_val(md.0, x - md.1 + 3)),
        _ => None,
    }
}

proof fn lemma_shift_up(ds: Seq<char>, k: nat)
    ensures
        digits_val(ds + zeros(k)) == digits_val(ds) * pow10(k),
    decreases k,
{
    if k == 0 {
        assert(ds + zeros(0) =~= ds);
        assert(pow10(0) == 1);
        assert(digits_val(ds) * 1 == digits_val(ds));
    } else {
        lemma_shift_up(ds, (k - 1) as nat);
        let t = ds + zeros(k);
        let prev = digits_val(ds + zeros((k - 1) as nat));
        assert(t.drop_last() =~= ds + zeros((k - 1) as nat));
        assert(t.last() == '0');
        assert(digits_val(t) == prev * 10);
        assert(pow10(k) == 10 * pow10((k - 1) as nat));
        assert(digits_val(ds) * pow10(k) == (digits_val(ds) * pow10((k - 1) as nat)) * 10)
            by (nonlinear_arith)
            requires
                pow10(k) == 10 * pow10((k - 1) as nat),
        ;
        assert(prev == digits_val(ds) * pow10((k - 1) as nat));
    }
}

proof fn lemma_pow10_grows(a: nat, b: nat)
    requires
        a <= b,
    ensures
        1 <= pow10(a) <= pow10(b),
    decreases b,
{
    if a < b {
        lemma_pow10_grows(a, (b - 1) as nat);
    } else if a > 0 {
        lemma_pow10_grows((a - 1) as nat, (a - 1) as nat);
    }
}

fn exp_mark_exec(s: &Vec<char>) -> (r: Option<usize>)
    ensures
        match r {
            Some(j) => j < s@.len() && exp_mark_from(s@, 0) == Some(j as int),
            None => exp_mark_from(s@, 0) is None,
        },
{
    let mut i: usize = 0;
    while i < s.len()
        invariant
            i <= s@.len(),
            exp_mark_from(s@, 0) == exp_mark_from(s@, i as int),
        decreases s@.len() - i,
    {
        if s[i] == 'e' || s[i] == 'E' {
            return Some(i);
        }
        i += 1;
    }
    None
}

fn mantissa_digits_exec(m: &Vec<char>) -> (r: Option<(Vec<char>, usize)>)
    ensures
        match r {
            Some(p) => mantissa_digits(m@) == Some((p.0@, p.1 as nat)),
            None => mantissa_digits(m@) is None,
        },
{
    let dot = vec!['.'];
    assert(dot@ =~= seq!['.']);
    match find(m, &dot) {
        None => {
            if m.len() > 0 && all_digits_exec(m) {
                Some((copy_range(m, 0, m.len()), 0))
            } else {
                None
            }
        },
        Some(k) => {
            let ip = copy_range(m, 0, k);
            let fp = copy_range(m, k + 1, m.len());
            assert(ip@ =~= m@.take(k as int));
            assert(fp@ =~= m@.skip(k + 1));
            if ip.len() + fp.len() == 0 || !all_digits_exec(&ip) || !all_digits_exec(&fp) {
                return None;
            }
            let mut ds = ip;
            let n = fp.len();
            push_all(&mut ds, &fp);
            Some((ds, n))
        },
    }
}

/// The value of a non-empty run of digits, when it fits in a `u128`.
fn parse_digits_wide(s: &[char]) -> (r: Option<u128>)
    requires
        s@.len() > 0,
        all_digits(s@),
    ensures
        r is Some <==> digits_val(s@) <= u128::MAX,
        r matches Some(v) ==> v as nat == digits_val(s@),
{
    let mut v: u128 = 0;
    let mut i: usize = 0;
    while i < s.len()
        invariant
            i <= s@.len(),
            all_digits(s@),
            v as nat == digits_val(s@.take(i as int)),
        decreases s@.len() - i,
    {
        let c = s[i];
        assert(s@.take(i + 1).drop_last() =~= s@.take(i as int));
        assert(s@.take(i + 1).last() == c);
        assert(is_ascii_digit_spec(s@[i as int]));
        let d = (c as u32 - '0' as u32) as u128;
        match v.checked_mul(10) {
            None => {
                proof {
                    lemma_digits_val_prefix(s@, i + 1, s@.len() as int);
                    assert(s@.take(s@.len() as int) =~= s@);
                }
                return None;
            },
            Some(t) => match t.checked_add(d) {
                None => {
                    proof {
                        lemma_digits_val_prefix(s@, i + 1, s@.len() as int);
                        assert(s@.take(s@.len() as int) =~= s@);
                    }
                    return None;
                },
                Some(u) => {
                    v = u;
                },
            },
        }
        i += 1;
    }
    assert(s@.take(s@.len() as int) =~= s@);
    Some(v)
}

/// The exponent's sign and size: `None` for a size past `u128::MAX`.
fn exponent_exec(x: &Vec<char>) -> (r: Option<(bool, Option<u128>)>)
    ensures
        match r {
            None => exponent_parts(x@) is None,
            Some(p) => exponent_parts(x@) matches Some(q) && q.0 == p.0 && match p.1 {
                Some(v) => digits_val(q.1) == v,
                None => digits_val(q.1) > u128::MAX,
            },
        },
{
    if x.len() > 0 && (x[0] == '+' || x[0] == '-') {
        let d = copy_range(x, 1, x.len());
        assert(d@ =~= x@.skip(1));
        if d.len() > 0 && all_digits_exec(&d) {
            Some((x[0] == '-', parse_digits_wide(&d)))
        } else {
            None
        }
    } else if x.len() > 0 && all_digits_exec(x) {
        Some((false, parse_digits_wide(x)))
    } else {
        None
    }
}

/// `shifted_val(ds, k)` for `k` = the signed exponent `x` minus `f` plus 3, where a missing
/// size stands for one past `u128::MAX`.
fn shifted_exec(ds: &Vec<char>, neg: bool, mag: Option<u128>, f: usize, Ghost(x): Ghost<int>) -> (r:
    Option<u64>)
    requires
        ds@.len() > 0,
        all_digits(ds@),
        match mag {
            Some(v) => x == if neg {
                -(v as int)
            } else {
                v as int
            },
            None => if neg {
                x < -(u128::MAX as int)
            } else {
                x > u128::MAX
            },
        },
    ensures
        r is Some <==> shifted_val(ds@, x - f + 3) <= u64::MAX,
        r matches Some(v) ==> shifted_val(ds@, x - f + 3) == v as nat,
{
    let ghost k = x - f + 3;
    let up: bool = match mag {
        Some(v) => if neg {
            v <= 3 && f as u128 + v <= 3
        } else {
            f <= 3 || v >= (f - 3) as u128
        },
        None => !neg,
    };
    if up {
        assert(k >= 0);
        proof {
            lemma_shift_up(ds@, k as nat);
        }
        let v0 = match parse_digits(ds) {
            None => {
                proof {
                    lemma_pow10_grows(0, k as nat);
                    assert(digits_val(ds@) * pow10(k as nat) >= digits_val(ds@)) by (nonlinear_arith)
                        requires
                            pow10(k as nat) >= 1,
                    ;
                }
                return None;
            },
            Some(v) => v,
        };
        if v0 == 0 {
            assert(digits_val(ds@) * pow10(k as nat) == 0) by (nonlinear_arith)
                requires
                    digits_val(ds@) == 0,
            ;
            return Some(0);
        }
        let far: bool = match mag {
            Some(v) => !neg && v >= f as u128 + 17,
            None => true,
        };
        if far {
            assert(k >= 20);
            proof {
                lemma_pow10_grows(20, k as nat);
                assert(pow10(20) == 100000000000000000000) by {
                    reveal_with_fuel(pow10, 21);
                }
                assert(digits_val(ds@) * pow10(k as nat) >= pow10(k as nat)) by (nonlinear_arith)
                    requires
                        digits_val(ds@) >= 1,
                ;
            }
            return None;
        }
        let steps: u64 = match mag {
            Some(v) => if neg {
                (3 - f as u128 - v) as u64
            } else {
                (v + 3 - f as u128) as u64
            },
            None => 0,
        };
        assert(steps as int == k);
        assert(pow10(0) == 1);
        assert(digits_val(ds@) * pow10(0) == digits_val(ds@));
        let mut v: u64 = v0;
        let mut i: u64 = 0;
        while i < steps
            invariant
                i <= steps,
                steps as int == k,
                k == x - f + 3,
                k >= 0,
                digits_val(ds@ + zeros(k as nat)) == digits_val(ds@) * pow10(k as nat),
                v as nat == digits_val(ds@) * pow10(i as nat),
            decreases steps - i,
        {
            proof {
                assert(pow10((i + 1) as nat) == 10 * pow10(i as nat));
                assert(digits_val(ds@) * pow10((i + 1) as nat) == v * 10) by (nonlinear_arith)
                    requires
                        pow10((i + 1) as nat) == 10 * pow10(i as nat),
                        v as nat == digits_val(ds@) * pow10(i as nat),
                ;
            }
            match v.checked_mul(10) {
                None => {
                    proof {
                        lemma_pow10_grows((i + 1) as nat, k as nat);
                        assert(digits_val(ds@) * pow10(k as nat) >= digits_val(ds@) * pow10(
                            (i + 1) as nat,
                        )) by (nonlinear_arith)
                            requires
                                pow10((i + 1) as nat) <= pow10(k as nat),
                        ;
                    }
                    return None;
                },
                Some(w) => {
                    v = w;
                },
            }
            i += 1;
        }
        Some(v)
    } else {
        assert(k < 0);
        let len = ds.len();
        let all_gone: bool = match mag {
            Some(v) => if neg {
                v >= len as u128 + 3 || v + f as u128 - 3 >= len as u128
            } else {
                (f as u128 - 3 - v) >= len as u128
            },
            None => true,
        };
        if all_gone {
            assert(ds@.len() + k <= 0);
            return Some(0);
        }
        let drop: usize = match mag {
            Some(v) => if neg {
                (v + f as u128 - 3) as usize
            } else {
                (f as u128 - 3 - v) as usize
            },
            None => 0,
        };
        assert(drop as int == -k);
        let keep = len - drop;
        let t = copy_range(ds, 0, keep);
        assert(t@ =~= ds@.take(ds@.len() + k));
        assert forall|i: int| 0 <= i < t@.len() implies is_ascii_digit_spec(#[trigger] t@[i]) by {
            assert(t@[i] == ds@[i]);
        }
        parse_digits(&t)
    }
}

/// Reads a number as `f32::from_str` does, in thousandths rounded down, when it is finite,
/// carries no minus sign and fits in a `u64`.
pub fn parse_float_milli(s: &[char]) -> (r: Option<u64>)
    ensures
        r is Some <==> (float_milli(s@) matches Some(v) && v <= u64::MAX),
        r matches Some(v) ==> float_milli(s@) == Some(v as nat),
{
    let b = if s.len() > 0 && s[0] == '+' {
        copy_range(s, 1, s.len())
    } else {
        copy_range(s, 0, s.len())
    };
    assert(s@.len() > 0 && s@[0] == '+' ==> b@ =~= s@.skip(1));
    assert(!(s@.len() > 0 && s@[0] == '+') ==> b@ =~= s@);
    let mark = exp_mark_exec(&b);
    let (m, e): (Vec<char>, Option<(bool, Option<u128>)>) = match mark {
        None => (copy_range(&b, 0, b.len()), Some((false, Some(0)))),
        Some(j) => (copy_range(&b, 0, j), exponent_exec(&copy_range(&b, j + 1, b.len()))),
    };
    proof {
        match mark {
            None => {
                assert(m@ =~= b@);
            },
            Some(j) => {
                assert(m@ =~= b@.take(j as int));
                assert(b@.subrange(j + 1, b@.len() as int) =~= b@.skip(j + 1));
            },
        }
    }
    let ghost ev: Option<int> = match exp_mark_from(b@, 0) {
        None => Some(0),
        Some(j) => match exponent_parts(b@.skip(j + 1)) {
            Some(p) => Some(
                if p.0 {
                    -(digits_val(p.1) as int)
                } else {
                    digits_val(p.1) as int
                },
            ),
            None => None,
        },
    };
    match mantissa_digits_exec(&m) {
        None => None,
        Some((ds, f)) => match e {
            None => None,
            Some((neg, mag)) => {
                let ghost x = ev.unwrap();
                shifted_exec(&ds, neg, mag, f, Ghost(x))
            },
        },
    }
}

/// A decimal number with an optional sign (`-24.0`, `+5`, `3`), in thousandths.
pub open spec fn signed_milli(s: Seq<char>) -> Option<int> {
    if s.len() > 0 && s[0] == '-' {
        match decimal_milli(s.skip(1)) {
            Some(v) => Some(-v),
            None => None,
        }
    } else if s.len() > 0 && s[0] == '+' {
        match decimal_milli(s.skip(1)) {
            Some(v) => Some(v as int),
            None => None,
        }
    } else {
        match decimal_milli(s) {
            Some(v) => Some(v as int),
            None => None,
        }
    }
}

/// Parses a signed decimal number into thousandths, if its magnitude fits in an `i64`.
pub fn parse_signed_milli(s: &[char]) -> (r: Option<i64>)
    ensures
        r is Some <==> (signed_milli(s@) matches Some(v) && -i64::MAX <= v <= i64::MAX),
        r matches Some(v) ==> signed_milli(s@) == Some(v as int),
{
    if s.len() > 0 && (s[0] == '-' || s[0] == '+') {
        let neg = s[0] == '-';
        let rest = copy_range(s, 1, s.len());
        assert(rest@ =~= s@.skip(1));
        match parse_decimal_milli(&rest) {
            None => None,
            Some(v) => if v <= i64::MAX as u64 {
                if neg {
                    Some(-(v as i64))
                } else {
                    Some(v as i64)
                }
            } else {
                None
            },
        }
    } else {
        match parse_decimal_milli(s) {
            None => None,
            Some(v) => if v <= i64::MAX as u64 {
                Some(v as i64)
            } else {
                None
            },
        }
    }
}



/// The pieces joined with a separator between consecutive ones.
pub open spec fn join_with(ls: Seq<Seq<char>>, sep: Seq<char>) -> Seq<char>
    decreases ls.len(),
{
    if ls.len() == 0 {
        seq![]
    } else if ls.len() == 1 {
        ls[0]
    } else {
        join_with(ls.drop_last(), sep) + sep + ls.last()
    }
}

/// Joins pieces with a separator (`[..].join(sep)`).
pub fn join(ls: &Vec<Vec<char>>, sep: &[char]) -> (r: Vec<char>)
    ensures
        r@ == join_with(views(ls@), sep@),
{
    let ghost lv = views(ls@);
    let mut out: Vec<char> = Vec::new();
    let mut i: usize = 0;
    while i < ls.len()
        invariant
            i <= ls@.len(),
            lv == views(ls@),
            out@ == join_with(lv.take(i as int), sep@),
        decreases ls@.len() - i,
    {
        assert(lv.take(i + 1).drop_last() =~= lv.take(i as int));
        assert(lv.take(i + 1).last() == ls@[i as int]@);
        if i > 0 {
            push_all(&mut out, sep);
        } else {
            assert(lv.take(1) =~= seq![ls@[0]@]);
            assert(out@ =~= seq![]);
        }
        push_all(&mut out, &ls[i]);
        i += 1;
    }
    assert(lv.take(ls@.len() as int) =~= lv);
    out
}


// ---------------------------------------------------------------------------
// Equality and order of character sequences.
// ---------------------------------------------------------------------------

/// Whether two character sequences are equal.
pub fn same_chars(a: &[char], b: &[char]) -> (r: bool)
    ensures
        r == (a@ == b@),
{
    if a.len() != b.len() {
        return false;
    }
    let r = starts_with(a, b);
    proof {
        if r {
            assert(a@.take(b@.len() as int) =~= a@);
        } else {
            assert(!(a@ =~= b@) ==> a@ != b@);
            if a@ == b@ {
                assert(a@.take(b@.len() as int) =~= b@);
            }
        }
    }
    r
}

// ---------------------------------------------------------------------------
// Words and lines.
// ---------------------------------------------------------------------------

/// The character sequences held by a vector of character vectors.
pub open spec fn views(v: Seq<Vec<char>>) -> Seq<Seq<char>> {
    v.map_values(|w: Vec<char>| w@)
}

/// `str::split_whitespace`, from index `i` on.
pub open spec fn words_from(s: Seq<char>, i: int) -> Seq<Seq<char>>
    decreases s.len() - i,
{
    if i < 0 || i >= s.len() {
        seq![]
    } else {
        let a = i + lead_from(s, ws(), i);
        if a >= s.len() {
            seq![]
        } else {
            let b = a + lead_from(s, non_ws(), a);
            if b <= i || b > s.len() {
                seq![]
            } else {
                seq![s.subrange(a, b)] + words_from(s, b)
            }
        }
    }
}

/// `str::split_whitespace`.
pub open spec fn words_seq(s: Seq<char>) -> Seq<Seq<char>> {
    words_from(s, 0)
}

/// Index of the first whitespace character at or after `i` (or the length).
pub fn skip_non_ws(s: &[char], i: usize) -> (r: usize)
    requires
        i <= s@.len(),
    ensures
        r == i + lead_from(s@, non_ws(), i as int),
{
    let mut k = i;
    while k < s.len() && !is_whitespace(s[k])
        invariant
            i <= k <= s@.len(),
            lead_from(s@, non_ws(), i as int) == (k - i) + lead_from(s@, non_ws(), k as int),
        decreases s@.len() - k,
    {
        k += 1;
    }
    k
}

/// `str::split_whitespace`.
pub fn words(s: &[char]) -> (r: Vec<Vec<char>>)
    ensures
        views(r@) == words_seq(s@),
{
    let mut r: Vec<Vec<char>> = Vec::new();
    let mut i: usize = 0;
    while i < s.len()
        invariant
            i <= s@.len(),
            words_seq(s@) == views(r@) + words_from(s@, i as int),
        ensures
            views(r@) == words_seq(s@),
        decreases s@.len() - i,
    {
        proof {
            lemma_lead_from(s@, ws(), i as int);
        }
        let a = skip_ws(s, i);
        if a >= s.len() {
            assert(words_from(s@, i as int) == Seq::<Seq<char>>::empty());
            assert(views(r@) + Seq::<Seq<char>>::empty() =~= views(r@));
            break;
        }
        let b = skip_non_ws(s, a);
        proof {
            lemma_lead_from(s@, non_ws(), a as int);
        }
        if b <= i {
            assert(views(r@) + Seq::<Seq<char>>::empty() =~= views(r@));
            break;
        }
        let w = copy_range(s, a, b);
        let ghost old_r = views(r@);
        r.push(w);
        assert(views(r@) =~= old_r.push(s@.subrange(a as int, b as int)));
        assert(words_from(s@, i as int) == seq![s@.subrange(a as int, b as int)] + words_from(
            s@,
            b as int,
        ));
        assert(old_r + (seq![s@.subrange(a as int, b as int)] + words_from(s@, b as int))
            =~= views(r@) + words_from(s@, b as int));
        i = b;
    }
    proof {
        if i >= s@.len() {
            assert(words_from(s@, i as int) == Seq::<Seq<char>>::empty());
            assert(views(r@) + Seq::<Seq<char>>::empty() =~= views(r@));
        }
    }
    r
}

/// Drops one trailing carriage return.
pub open spec fn strip_cr(s: Seq<char>) -> Seq<char> {
    if s.len() > 0 && s.last() == '\r' {
        s.drop_last()
    } else {
        s
    }
}

/// `str::lines`, from index `i` on.
pub open spec fn lines_from(s: Seq<char>, i: int) -> Seq<Seq<char>>
    decreases s.len() + 1 - i,
{
    if i < 0 || i >= s.len() {
        seq![]
    } else {
        match find_from(s, seq!['\n'], i) {
            Some(k) => if k < i || k >= s.len() {
                seq![]
            } else {
                seq![strip_cr(s.subrange(i, k))] + lines_from(s, k + 1)
            },
            None => seq![s.subrange(i, s.len() as int)],
        }
    }
}

/// `str::lines`.
pub open spec fn lines_seq(s: Seq<char>) -> Seq<Seq<char>> {
    lines_from(s, 0)
}

/// `str::lines`.
pub fn lines(s: &[char]) -> (r: Vec<Vec<char>>)
    ensures
        views(r@) == lines_seq(s@),
{
    let mut r: Vec<Vec<char>> = Vec::new();
    let mut i: usize = 0;
    let nl = ['\n'];
    assert(nl@ =~= seq!['\n']);
    while i < s.len()
        invariant
            i <= s@.len(),
            nl@ == seq!['\n'],
            lines_seq(s@) == views(r@) + lines_from(s@, i as int),
        decreases s@.len() - i,
    {
        let ghost old_r = views(r@);
        match find_from_exec(s, &nl, i) {
            Some(k) => {
                proof {
                    lemma_find_from(s@, seq!['\n'], i as int);
                }
                let mut line = copy_range(s, i, k);
                if line.len() > 0 && line[line.len() - 1] == '\r' {
                    line.pop();
                    assert(line@ =~= strip_cr(s@.subrange(i as int, k as int)));
                }
                r.push(line);
                assert(views(r@) =~= old_r.push(strip_cr(s@.subrange(i as int, k as int))));
                assert(old_r + (seq![strip_cr(s@.subrange(i as int, k as int))] + lines_from(
                    s@,
                    k + 1,
                )) =~= views(r@) + lines_from(s@, k + 1));
                i = k + 1;
            },
            None => {
                let line = copy_range(s, i, s.len());
                r.push(line);
                assert(views(r@) =~= old_r.push(s@.subrange(i as int, s@.len() as int)));
                assert(lines_from(s@, s@.len() as int) == Seq::<Seq<char>>::empty());
                assert(old_r + seq![s@.subrange(i as int, s@.len() as int)] =~= views(r@)
                    + lines_from(s@, s@.len() as int));
                i = s.len();
            },
        }
    }
    assert(lines_from(s@, i as int) == Seq::<Seq<char>>::empty());
    assert(views(r@) + Seq::<Seq<char>>::empty() =~= views(r@));
    r
}


// ---------------------------------------------------------------------------
// UTF-8 lengths, replacement, removal, decimal numbers.
// ---------------------------------------------------------------------------

/// Bytes that UTF-8 uses for a character (`char::len_utf8`).
pub open spec fn utf8_len(c: char) -> nat {
    if (c as u32) < 0x80 {
        1
    } else if (c as u32) < 0x800 {
        2
    } else if (c as u32) < 0x10000 {
        3
    } else {
        4
    }
}

/// Bytes that UTF-8 uses for a character sequence (`str::len`).
pub open spec fn byte_len(s: Seq<char>) -> nat
    decreases s.len(),
{
    if s.len() == 0 {
        0
    } else {
        byte_len(s.drop_last()) + utf8_len(s.last())
    }
}

/// `str::len` of the string these characters make.
pub fn utf8_byte_len(s: &[char]) -> (r: u128)
    ensures
        r == byte_len(s@),
{
    let mut sum: u128 = 0;
    let mut i: usize = 0;
    assert(s@.len() == s.len());
    while i < s.len()
        invariant
            i <= s@.len(),
            s@.len() <= usize::MAX,
            sum == byte_len(s@.take(i as int)),
            sum <= 4 * i,
        decreases s@.len() - i,
    {
        let c = s[i];
        let n: u128 = if (c as u32) < 0x80 {
            1
        } else if (c as u32) < 0x800 {
            2
        } else if (c as u32) < 0x10000 {
            3
        } else {
            4
        };
        assert(s@.take(i + 1).drop_last() =~= s@.take(i as int));
        sum = sum + n;
        i += 1;
    }
    assert(s@.take(s@.len() as int) =~= s@);
    sum
}

/// How many leading characters, from index `i` on, still fit in `n` bytes.
pub open spec fn fit_count(s: Seq<char>, n: nat, i: int) -> int
    decreases s.len() - i,
{
    if 0 <= i < s.len() && byte_len(s.take(i + 1)) <= n {
        fit_count(s, n, i + 1)
    } else {
        i
    }
}

/// The longest prefix of `s` that fits in `n` bytes.
pub open spec fn byte_head(s: Seq<char>, n: nat) -> Seq<char> {
    s.take(fit_count(s, n, 0))
}

/// `&s[..min(s.len(), n)]` does not panic: the cut falls on a character boundary.
pub open spec fn head_on_boundary(s: Seq<char>, n: nat) -> bool {
    byte_len(s) <= n || byte_len(byte_head(s, n)) == n
}

proof fn lemma_fit_count(s: Seq<char>, n: nat, i: int)
    requires
        0 <= i <= s.len(),
    ensures
        i <= fit_count(s, n, i) <= s.len(),
    decreases s.len() - i,
{
    if i < s.len() && byte_len(s.take(i + 1)) <= n {
        lemma_fit_count(s, n, i + 1);
    }
}

/// The longest prefix of `s` that fits in `n` bytes (`&s[..min(s.len(), n)]` when the cut
/// falls on a character boundary).
pub fn head_bytes(s: &[char], n: usize) -> (r: Vec<char>)
    ensures
        r@ == byte_head(s@, n as nat),
{
    let mut i: usize = 0;
    let mut acc: usize = 0;
    while i < s.len()
        invariant
            i <= s@.len(),
            acc == byte_len(s@.take(i as int)),
            acc <= n,
            fit_count(s@, n as nat, 0) == fit_count(s@, n as nat, i as int),
        ensures
            i <= s@.len(),
            fit_count(s@, n as nat, 0) == i,
        decreases s@.len() - i,
    {
        let c = s[i];
        let w: usize = if (c as u32) < 0x80 {
            1
        } else if (c as u32) < 0x800 {
            2
        } else if (c as u32) < 0x10000 {
            3
        } else {
            4
        };
        assert(s@.take(i + 1).drop_last() =~= s@.take(i as int));
        assert(w == utf8_len(s@[i as int]));
        if w > n - acc {
            assert(byte_len(s@.take(i + 1)) > n);
            break;
        }
        acc = acc + w;
        i += 1;
    }
    proof {
        lemma_fit_count(s@, n as nat, i as int);
    }
    copy_range(s, 0, i)
}

/// `str::replace` with a non-empty pattern, from index `i` on.
pub open spec fn replace_from(s: Seq<char>, p: Seq<char>, r: Seq<char>, i: int) -> Seq<char>
    decreases s.len() + 1 - i,
{
    if i < 0 || i > s.len() || p.len() == 0 {
        s
    } else {
        match find_from(s, p, i) {
            None => s.subrange(i, s.len() as int),
            Some(k) => if k < i || k + p.len() > s.len() {
                s.subrange(i, s.len() as int)
            } else {
                s.subrange(i, k) + r + replace_from(s, p, r, k + p.len())
            },
        }
    }
}

/// `str::replace` with a non-empty pattern.
pub open spec fn replace_seq(s: Seq<char>, p: Seq<char>, r: Seq<char>) -> Seq<char> {
    replace_from(s, p, r, 0)
}

/// `str::replace` with a non-empty pattern.
pub fn replace(s: &[char], p: &[char], r: &[char]) -> (res: Vec<char>)
    requires
        p@.len() > 0,
    ensures
        res@ == replace_seq(s@, p@, r@),
{
    let mut res: Vec<char> = Vec::new();
    let mut i: usize = 0;
    assert(s@.len() == s.len());
    loop
        invariant
            i <= s@.len(),
            s@.len() <= usize::MAX,
            p@.len() > 0,
            replace_seq(s@, p@, r@) == res@ + replace_from(s@, p@, r@, i as int),
        decreases s@.len() - i,
    {
        proof {
            lemma_find_from(s@, p@, i as int);
        }
        match find_from_exec(s, p, i) {
            None => {
                let rest = copy_range(s, i, s.len());
                let ghost old_res = res@;
                push_all(&mut res, &rest);
                return res;
            },
            Some(k) => {
                let a = copy_range(s, i, k);
                let ghost old_res = res@;
                push_all(&mut res, &a);
                push_all(&mut res, r);
                assert(old_res + (s@.subrange(i as int, k as int) + r@ + replace_from(
                    s@,
                    p@,
                    r@,
                    k + p@.len(),
                )) =~= res@ + replace_from(s@, p@, r@, k + p@.len()));
                i = k + p.len();
            },
        }
    }
}

/// The characters of `s` that are not in `set`, in order.
pub open spec fn drop_chars(s: Seq<char>, set: Seq<char>) -> Seq<char>
    decreases s.len(),
{
    if s.len() == 0 {
        seq![]
    } else if set.contains(s.last()) {
        drop_chars(s.drop_last(), set)
    } else {
        drop_chars(s.drop_last(), set).push(s.last())
    }
}

/// `str::replace` of a set of characters by nothing.
pub fn remove_chars(s: &[char], set: &[char]) -> (res: Vec<char>)
    ensures
        res@ == drop_chars(s@, set@),
{
    let mut res: Vec<char> = Vec::new();
    let mut i: usize = 0;
    while i < s.len()
        invariant
            i <= s@.len(),
            res@ == drop_chars(s@.take(i as int), set@),
        decreases s@.len() - i,
    {
        let c = s[i];
        let mut found = false;
        let mut j: usize = 0;
        while j < set.len()
            invariant
                j <= set@.len(),
                found == (exists|k: int| 0 <= k < j && set@[k] == c),
            decreases set@.len() - j,
        {
            if set[j] == c {
                found = true;
            }
            j += 1;
        }
        assert(s@.take(i + 1).drop_last() =~= s@.take(i as int));
        assert(s@.take(i + 1).last() == c);
        proof {
            if found {
                let k = choose|k: int| 0 <= k < set@.len() && set@[k] == c;
                assert(set@.contains(c));
            } else {
                assert forall|k: int| 0 <= k < set@.len() implies set@[k] != c by {}
                assert(!set@.contains(c));
            }
        }
        if !found {
            res.push(c);
        }
        i += 1;
    }
    assert(s@.take(s@.len() as int) =~= s@);
    res
}

/// The decimal digit for `d` (which is below 10).
pub open spec fn digit_char(d: nat) -> char {
    seq!['0', '1', '2', '3', '4', '5', '6', '7', '8', '9'][d as int]
}

/// Decimal representation of a natural number, as `Display` writes it.
pub open spec fn dec(n: nat) -> Seq<char>
    decreases n,
{
    if n < 10 {
        seq![digit_char(n)]
    } else {
        dec(n / 10).push(digit_char(n % 10))
    }
}

/// Decimal representation padded with zeros to at least `w` digits (`{:0w}`).
pub open spec fn dec_pad(n: nat, w: nat) -> Seq<char> {
    let d = dec(n);
    if d.len() >= w {
        d
    } else {
        Seq::new((w - d.len()) as nat, |i: int| '0') + d
    }
}

/// The decimal digit for `d`.
pub fn digit(d: u64) -> (c: char)
    requires
        d < 10,
    ensures
        c == digit_char(d as nat),
{
    let ds = ['0', '1', '2', '3', '4', '5', '6', '7', '8', '9'];
    assert(ds@ =~= seq!['0', '1', '2', '3', '4', '5', '6', '7', '8', '9']);
    ds[d as usize]
}

/// Decimal representation of `n`.
pub fn fmt_u64(n: u64) -> (r: Vec<char>)
    ensures
        r@ == dec(n as nat),
    decreases n,
{
    if n < 10 {
        let mut r = Vec::new();
        r.push(digit(n));
        assert(r@ =~= seq![digit_char(n as nat)]);
        r
    } else {
        let mut r = fmt_u64(n / 10);
        r.push(digit(n % 10));
        r
    }
}

pub proof fn lemma_dec_len(n: nat)
    ensures
        dec(n).len() >= 1,
        n < 10 ==> dec(n).len() == 1,
        n < 100 ==> dec(n).len() <= 2,
        n < 1000 ==> dec(n).len() <= 3,
        n >= 10 ==> dec(n).len() >= 2,
    decreases n,
{
    if n >= 10 {
        lemma_dec_len(n / 10);
    }
}

/// Decimal representation of `n`, zero-padded to `w` digits.
pub fn fmt_u64_pad(n: u64, w: usize) -> (r: Vec<char>)
    ensures
        r@ == dec_pad(n as nat, w as nat),
{
    let d = fmt_u64(n);
    if d.len() >= w {
        d
    } else {
        let mut r: Vec<char> = Vec::new();
        let mut k: usize = 0;
        while k < w - d.len()
            invariant
                d.len() < w,
                k <= w - d@.len(),
                r@ == Seq::new(k as nat, |i: int| '0'),
            decreases w - d@.len() - k,
        {
            r.push('0');
            assert(r@ =~= Seq::new((k + 1) as nat, |i: int| '0'));
            k += 1;
        }
        push_all(&mut r, &d);
        r
    }
}

} // verus!
