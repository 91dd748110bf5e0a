//! Character-level text model shared by the parser, the schema loader and the
//! validators.
//!
//! Text is modelled as `Seq<char>`. Executable code works on `Vec<char>`
//! windows `[lo, hi)` and is proved against the spec functions below.
use vstd::prelude::*;

verus! {

// ── Characters ──

/// Unicode `White_Space`, the set that `char::is_whitespace` and `str::trim` use.
pub open spec fn is_ws(c: char) -> bool {
    ||| ('\u{9}' <= c && c <= '\u{d}')
    ||| c == ' '
    ||| c == '\u{85}'
    ||| c == '\u{a0}'
    ||| c == '\u{1680}'
    ||| ('\u{2000}' <= c && c <= '\u{200a}')
    ||| c == '\u{2028}'
    ||| c == '\u{2029}'
    ||| c == '\u{202f}'
    ||| c == '\u{205f}'
    ||| c == '\u{3000}'
}

pub open spec fn is_digit(c: char) -> bool {
    '0' <= c && c <= '9'
}

pub open spec fn is_lower(c: char) -> bool {
    'a' <= c && c <= 'z'
}

pub open spec fn is_upper(c: char) -> bool {
    'A' <= c && c <= 'Z'
}

pub open spec fn is_alpha(c: char) -> bool {
    is_lower(c) || is_upper(c)
}

pub open spec fn is_alnum(c: char) -> bool {
    is_alpha(c) || is_digit(c)
}

pub fn is_whitespace(c: char) -> (r: bool)
    ensures
        r == is_ws(c),
{
    ('\u{9}' <= c && c <= '\u{d}') || c == ' ' || c == '\u{85}' || c == '\u{a0}' || c
        == '\u{1680}' || ('\u{2000}' <= c && c <= '\u{200a}') || c == '\u{2028}' || c
        == '\u{2029}' || c == '\u{202f}' || c == '\u{205f}' || c == '\u{3000}'
}

// ── Basic sequence predicates ──

pub open spec fn starts_with(s: Seq<char>, p: Seq<char>) -> bool {
    p.len() <= s.len() && s.subrange(0, p.len() as int) == p
}

pub open spec fn ends_with(s: Seq<char>, p: Seq<char>) -> bool {
    p.len() <= s.len() && s.subrange(s.len() - p.len(), s.len() as int) == p
}

/// The part of `s` after the prefix `p` (meaningful when `starts_with(s, p)`).
pub open spec fn after(s: Seq<char>, p: Seq<char>) -> Seq<char> {
    s.subrange(p.len() as int, s.len() as int)
}

/// The part of `s` before the suffix `p` (meaningful when `ends_with(s, p)`).
pub open spec fn before_suffix(s: Seq<char>, p: Seq<char>) -> Seq<char> {
    s.subrange(0, s.len() - p.len())
}

pub open spec fn has_char(s: Seq<char>, c: char) -> bool {
    exists|i: int| 0 <= i < s.len() && s[i] == c
}

/// First position at or after `i` where `p` occurs in `s`.
pub open spec fn find_from(s: Seq<char>, p: Seq<char>, i: int) -> Option<int>
    decreases s.len() + 1 - i,
{
    if i < 0 || i + p.len() > s.len() {
        None
    } else if s.subrange(i, i + p.len()) == p {
        Some(i)
    } else {
        find_from(s, p, i + 1)
    }
}

/// First position where `p` occurs in `s` (`str::find`).
pub open spec fn find(s: Seq<char>, p: Seq<char>) -> Option<int> {
    find_from(s, p, 0)
}

/// Last position of `c` among the first `n` characters of `s`.
pub open spec fn rfind_upto(s: Seq<char>, c: char, n: int) -> Option<int>
    decreases n,
{
    if n <= 0 || n > s.len() {
        None
    } else if s[n - 1] == c {
        Some(n - 1)
    } else {
        rfind_upto(s, c, n - 1)
    }
}

/// Last position of `c` in `s` (`str::rfind`).
pub open spec fn rfind_char(s: Seq<char>, c: char) -> Option<int> {
    rfind_upto(s, c, s.len() as int)
}

// ── Trimming ──

pub open spec fn trim_start(s: Seq<char>) -> Seq<char>
    decreases s.len(),
{
    if s.len() > 0 && is_ws(s[0]) {
        trim_start(s.drop_first())
    } else {
        s
    }
}

pub open spec fn trim_end(s: Seq<char>) -> Seq<char>
    decreases s.len(),
{
    if s.len() > 0 && is_ws(s.last()) {
        trim_end(s.drop_last())
    } else {
        s
    }
}

/// `str::trim`: strip leading and trailing Unicode whitespace.
pub open spec fn trim(s: Seq<char>) -> Seq<char> {
    trim_end(trim_start(s))
}

pub open spec fn trim_start_char(s: Seq<char>, c: char) -> Seq<char>
    decreases s.len(),
{
    if s.len() > 0 && s[0] == c {
        trim_start_char(s.drop_first(), c)
    } else {
        s
    }
}

pub open spec fn trim_end_char(s: Seq<char>, c: char) -> Seq<char>
    decreases s.len(),
{
    if s.len() > 0 && s.last() == c {
        trim_end_char(s.drop_last(), c)
    } else {
        s
    }
}

/// `str::trim_matches(c)` for a single character.
pub open spec fn trim_matches(s: Seq<char>, c: char) -> Seq<char> {
    trim_end_char(trim_start_char(s, c), c)
}

// ── Splitting ──

/// First position at or after `i` holding `c`, or `s.len()`.
pub open spec fn char_end(s: Seq<char>, c: char, i: int) -> int
    decreases s.len() - i,
{
    if i < 0 || i >= s.len() {
        s.len() as int
    } else if s[i] == c {
        i
    } else {
        char_end(s, c, i + 1)
    }
}

pub open spec fn split_from(s: Seq<char>, c: char, i: int) -> Seq<Seq<char>>
    decreases s.len() + 1 - i,
{
    if i < 0 || i > s.len() {
        seq![]
    } else {
        let e = char_end(s, c, i);
        if i <= e < s.len() {
            seq![s.subrange(i, e)] + split_from(s, c, e + 1)
        } else {
            seq![s.subrange(i, s.len() as int)]
        }
    }
}

/// `str::split(c)`: the pieces between occurrences of `c` (always at least one).
pub open spec fn split_char(s: Seq<char>, c: char) -> Seq<Seq<char>> {
    split_from(s, c, 0)
}

pub open spec fn strip_cr(s: Seq<char>) -> Seq<char> {
    if s.len() > 0 && s.last() == '\r' {
        s.drop_last()
    } else {
        s
    }
}

pub open spec fn lines_from(s: Seq<char>, i: int) -> Seq<Seq<char>>
    decreases s.len() - i,
{
    if i < 0 || i >= s.len() {
        seq![]
    } else {
        let e = char_end(s, '\n', i);
        if i <= e < s.len() {
            seq![strip_cr(s.subrange(i, e))] + lines_from(s, e + 1)
        } else {
            seq![s.subrange(i, s.len() as int)]
        }
    }
}

/// `str::lines`: split at `\n`, dropping a `\r` right before each `\n`;
/// a final line ending is optional.
pub open spec fn lines(s: Seq<char>) -> Seq<Seq<char>> {
    lines_from(s, 0)
}

/// `parts` joined with `sep` between consecutive parts.
pub open spec fn join(parts: Seq<Seq<char>>, sep: Seq<char>) -> Seq<char>
    decreases parts.len(),
{
    if parts.len() == 0 {
        seq![]
    } else if parts.len() == 1 {
        parts[0]
    } else {
        join(parts.drop_last(), sep) + sep + parts.last()
    }
}

/// Number of maximal runs of non-whitespace characters (`split_whitespace().count()`).
pub open spec fn count_words(s: Seq<char>) -> nat
    decreases s.len(),
{
    if s.len() == 0 {
        0
    } else if !is_ws(s.last()) && (s.len() == 1 || is_ws(s[s.len() - 2])) {
        count_words(s.drop_last()) + 1
    } else {
        count_words(s.drop_last())
    }
}

// ── Decimal numbers ──

pub open spec fn digit_char(d: nat) -> char {
    if d == 0 {
        '0'
    } else if d == 1 {
        '1'
    } else if d == 2 {
        '2'
    } else if d == 3 {
        '3'
    } else if d == 4 {
        '4'
    } else if d == 5 {
        '5'
    } else if d == 6 {
        '6'
    } else if d == 7 {
        '7'
    } else if d == 8 {
        '8'
    } else {
        '9'
    }
}

/// Decimal rendering of a natural number, as `usize::to_string` gives it.
pub open spec fn dec(n: nat) -> Seq<char>
    decreases n,
{
    if n < 10 {
        seq![digit_char(n)]
    } else {
        dec(n / 10).push(digit_char(n % 10))
    }
}

pub open spec fn all_digits(s: Seq<char>) -> bool {
    forall|i: int| 0 <= i < s.len() ==> is_digit(#[trigger] s[i])
}

pub open spec fn digit_value(c: char) -> nat {
    (c as u32 - '0' as u32) as nat
}

pub open spec fn digits_value(s: Seq<char>) -> nat
    decreases s.len(),
{
    if s.len() == 0 {
        0
    } else {
        digits_value(s.drop_last()) * 10 + digit_value(s.last())
    }
}

pub open spec fn drop_sign(s: Seq<char>) -> Seq<char> {
    if s.len() > 0 && (s[0] == '+' || s[0] == '-') {
        s.drop_first()
    } else {
        s
    }
}

/// The strings that `str::parse::<i64>` accepts: an optional sign, then
/// one or more ASCII digits whose value fits in `i64`.
pub open spec fn is_i64_text(s: Seq<char>) -> bool {
    let body = drop_sign(s);
    let neg = s.len() > 0 && s[0] == '-';
    &&& body.len() > 0
    &&& all_digits(body)
    &&& digits_value(body) <= if neg {
        9223372036854775808nat
    } else {
        9223372036854775807nat
    }
}

/// The strings that `str::parse::<u32>` accepts: an optional `+`, then
/// one or more ASCII digits whose value fits in `u32`.
pub open spec fn is_u32_text(s: Seq<char>) -> bool {
    let body = if s.len() > 0 && s[0] == '+' {
        s.drop_first()
    } else {
        s
    };
    &&& body.len() > 0
    &&& all_digits(body)
    &&& digits_value(body) <= 4294967295nat
}

pub open spec fn ascii_lower(c: char) -> char {
    if is_upper(c) {
        ((c as u32) + 32) as char
    } else {
        c
    }
}

/// `Digit+ | Digit+ '.' Digit* | Digit* '.' Digit+`
pub open spec fn is_mantissa(m: Seq<char>) -> bool {
    ||| (m.len() > 0 && all_digits(m))
    ||| exists|j: int|
        0 <= j < m.len() && #[trigger] m[j] == '.' && all_digits(m.subrange(0, j)) && all_digits(
            m.subrange(j + 1, m.len() as int),
        ) && (j > 0 || j + 1 < m.len())
}

/// `Sign? Digit+` (the part after `e` in an exponent)
pub open spec fn is_exponent_digits(e: Seq<char>) -> bool {
    let d = drop_sign(e);
    d.len() > 0 && all_digits(d)
}

pub open spec fn is_number_body(b: Seq<char>) -> bool {
    ||| is_mantissa(b)
    ||| exists|k: int|
        0 <= k < b.len() && (#[trigger] b[k] == 'e' || b[k] == 'E') && is_mantissa(
            b.subrange(0, k),
        ) && is_exponent_digits(b.subrange(k + 1, b.len() as int))
}

pub open spec fn lowered(s: Seq<char>) -> Seq<char> {
    s.map_values(|c: char| ascii_lower(c))
}

/// The strings that `str::parse::<f64>` accepts, by the grammar its
/// documentation gives: `Sign? ('inf' | 'infinity' | 'nan' | Number)`,
/// keywords case-insensitive.
pub open spec fn is_f64_text(s: Seq<char>) -> bool {
    let b = drop_sign(s);
    ||| lowered(b) == seq!['i', 'n', 'f']
    ||| lowered(b) == seq!['i', 'n', 'f', 'i', 'n', 'i', 't', 'y']
    ||| lowered(b) == seq!['n', 'a', 'n']
    ||| is_number_body(b)
}

// ── Outside results ──

/// What `str::to_lowercase` returns for a string (Unicode lowercase mapping).
pub uninterp spec fn lowercase(s: Seq<char>) -> Seq<char>;

/// Calls `str::to_lowercase`. Its result is a fixed function of the input
/// (Unicode `Lowercase` mapping, independent of locale); the contract names it
/// `lowercase` and states nothing further about it.
#[verifier::external_body]
pub(crate) fn to_lowercase(s: &str) -> (r: String)
    ensures
        r@ == lowercase(s@),
{
    s.to_lowercase()
}

/// Calls `String::push`, which appends one character.
#[verifier::external_body]
pub(crate) fn push_char(s: &mut String, c: char)
    ensures
        final(s)@ == old(s)@.push(c),
{
    s.push(c);
}

// ── Lemmas ──

pub proof fn lemma_char_end_bounds(s: Seq<char>, c: char, i: int)
    requires
        0 <= i <= s.len(),
    ensures
        i <= char_end(s, c, i) <= s.len(),
        char_end(s, c, i) < s.len() ==> s[char_end(s, c, i)] == c,
        forall|j: int| i <= j < char_end(s, c, i) ==> s[j] != c,
    decreases s.len() - i,
{
    if i < s.len() && s[i] != c {
        lemma_char_end_bounds(s, c, i + 1);
    }
}

proof fn lemma_trim_start_skip(s: Seq<char>, a: int)
    requires
        0 <= a <= s.len(),
        forall|j: int| 0 <= j < a ==> is_ws(s[j]),
    ensures
        trim_start(s) == trim_start(s.subrange(a, s.len() as int)),
    decreases a,
{
    if a > 0 {
        assert(is_ws(s[0]));
        assert(s.drop_first() =~= s.subrange(1, s.len() as int));
        lemma_trim_start_skip(s.drop_first(), a - 1);
        assert(s.drop_first().subrange(a - 1, s.drop_first().len() as int) =~= s.subrange(
            a,
            s.len() as int,
        ));
    } else {
        assert(s.subrange(0, s.len() as int) =~= s);
    }
}

proof fn lemma_trim_end_skip(s: Seq<char>, b: int)
    requires
        0 <= b <= s.len(),
        forall|j: int| b <= j < s.len() ==> is_ws(s[j]),
    ensures
        trim_end(s) == trim_end(s.subrange(0, b)),
    decreases s.len() - b,
{
    if b < s.len() {
        assert(is_ws(s[s.len() - 1]));
        assert(s.drop_last() =~= s.subrange(0, s.len() - 1));
        lemma_trim_end_skip(s.drop_last(), b);
        assert(s.drop_last().subrange(0, b) =~= s.subrange(0, b));
    } else {
        assert(s.subrange(0, b) =~= s);
    }
}

pub proof fn lemma_ends_with_char(s: Seq<char>, c: char)
    ensures
        ends_with(s, seq![c]) <==> (s.len() > 0 && s[s.len() - 1] == c),
{
    if s.len() > 0 {
        assert(s.subrange(s.len() - 1, s.len() as int)[0] == s[s.len() - 1]);
        if s[s.len() - 1] == c {
            assert(s.subrange(s.len() - 1, s.len() as int) =~= seq![c]);
        }
    }
}

pub proof fn lemma_starts_with_char(s: Seq<char>, c: char)
    ensures
        starts_with(s, seq![c]) <==> (s.len() > 0 && s[0] == c),
{
    if s.len() > 0 {
        assert(s.subrange(0, 1)[0] == s[0]);
        if s[0] == c {
            assert(s.subrange(0, 1) =~= seq![c]);
        }
    }
}

pub proof fn lemma_trim_start_len(s: Seq<char>)
    ensures
        trim_start(s).len() <= s.len(),
    decreases s.len(),
{
    if s.len() > 0 && is_ws(s[0]) {
        lemma_trim_start_len(s.drop_first());
    }
}

pub proof fn lemma_trim_end_len(s: Seq<char>)
    ensures
        trim_end(s).len() <= s.len(),
    decreases s.len(),
{
    if s.len() > 0 && is_ws(s.last()) {
        lemma_trim_end_len(s.drop_last());
    }
}

pub proof fn lemma_trim_len(s: Seq<char>)
    ensures
        trim(s).len() <= s.len(),
{
    lemma_trim_start_len(s);
    lemma_trim_end_len(trim_start(s));
}

// ── Executable helpers ──

/// The characters of `s`.
pub fn chars_of(s: &str) -> (v: Vec<char>)
    ensures
        v@ == s@,
{
    broadcast use vstd::string::group_string_axioms;

    let mut v: Vec<char> = Vec::new();
    for c in it: s.chars()
        invariant
            v@ == it.seq().take(it.index() as int),
            it.seq() == s@,
    {
        v.push(c);
    }
    v
}

/// A `String` holding `v[lo..hi]`.
pub fn string_of(v: &Vec<char>, lo: usize, hi: usize) -> (r: String)
    requires
        lo <= hi <= v@.len(),
    ensures
        r@ == v@.subrange(lo as int, hi as int),
{
    let mut r = String::new();
    let mut i = lo;
    while i < hi
        invariant
            lo <= i <= hi <= v@.len(),
            r@ == v@.subrange(lo as int, i as int),
        decreases hi - i,
    {
        push_char(&mut r, v[i]);
        assert(v@.subrange(lo as int, i + 1) =~= v@.subrange(lo as int, i as int).push(v@[i as int]));
        i = i + 1;
    }
    r
}

/// Appends the characters of `v` to `s`.
pub fn append_chars(s: &mut String, v: &Vec<char>)
    ensures
        final(s)@ == old(s)@ + v@,
{
    let mut i: usize = 0;
    while i < v.len()
        invariant
            i <= v@.len(),
            s@ == old(s)@ + v@.subrange(0, i as int),
        decreases v@.len() - i,
    {
        push_char(s, v[i]);
        assert(v@.subrange(0, i + 1) =~= v@.subrange(0, i as int).push(v@[i as int]));
        i = i + 1;
    }
    assert(v@.subrange(0, v@.len() as int) =~= v@);
}

/// Appends `t` to `s`.
pub fn append_str(s: &mut String, t: &str)
    ensures
        final(s)@ == old(s)@ + t@,
{
    let v = chars_of(t);
    append_chars(s, &v);
}

/// A new `String` holding `t`.
pub fn string_from(t: &str) -> (r: String)
    ensures
        r@ == t@,
{
    let mut r = String::new();
    append_str(&mut r, t);
    r
}

/// Whether `p` occurs in `v` at position `pos`.
pub fn matches_at(v: &Vec<char>, pos: usize, hi: usize, p: &[char]) -> (r: bool)
    requires
        pos <= hi <= v@.len(),
    ensures
        r == (pos + p@.len() <= hi && v@.subrange(pos as int, pos + p@.len()) == p@),
{
    if p.len() > hi - pos {
        return false;
    }
    let mut i: usize = 0;
    while i < p.len()
        invariant
            i <= p@.len(),
            pos + p@.len() <= hi <= v@.len(),
            forall|j: int| 0 <= j < i ==> v@[pos + j] == p@[j],
        decreases p@.len() - i,
    {
        if v[pos + i] != p[i] {
            assert(v@.subrange(pos as int, pos + p@.len())[i as int] != p@[i as int]);
            return false;
        }
        i = i + 1;
    }
    assert(v@.subrange(pos as int, pos + p@.len()) =~= p@);
    true
}

pub fn starts_with_at(v: &Vec<char>, lo: usize, hi: usize, p: &[char]) -> (r: bool)
    requires
        lo <= hi <= v@.len(),
    ensures
        r == starts_with(v@.subrange(lo as int, hi as int), p@),
{
    let r = matches_at(v, lo, hi, p);
    if p.len() <= hi - lo {
        assert(v@.subrange(lo as int, hi as int).subrange(0, p@.len() as int) =~= v@.subrange(
            lo as int,
            lo + p@.len(),
        ));
    }
    r
}

pub fn ends_with_at(v: &Vec<char>, lo: usize, hi: usize, p: &[char]) -> (r: bool)
    requires
        lo <= hi <= v@.len(),
    ensures
        r == ends_with(v@.subrange(lo as int, hi as int), p@),
{
    if p.len() > hi - lo {
        return false;
    }
    let r = matches_at(v, hi - p.len(), hi, p);
    assert(v@.subrange(lo as int, hi as int).subrange(
        (hi - lo) - p@.len(),
        (hi - lo) as int,
    ) =~= v@.subrange(hi - p@.len(), hi as int));
    r
}

/// `str::find` on `v[lo..hi]`, as an offset from `lo`.
pub fn find_in(v: &Vec<char>, lo: usize, hi: usize, p: &[char]) -> (r: Option<usize>)
    requires
        lo <= hi <= v@.len(),
    ensures
        match r {
            Some(k) => find(v@.subrange(lo as int, hi as int), p@) == Some(k as int) && lo + k
                + p@.len() <= hi,
            None => find(v@.subrange(lo as int, hi as int), p@) is None,
        },
{
    let ghost s = v@.subrange(lo as int, hi as int);
    let mut i: usize = 0;
    while i <= hi - lo
        invariant
            lo <= hi <= v@.len(),
            s == v@.subrange(lo as int, hi as int),
            i <= hi - lo + 1,
            find(s, p@) == find_from(s, p@, i as int),
        decreases hi - lo + 1 - i,
    {
        if p.len() > hi - lo - i {
            return None;
        }
        if matches_at(v, lo + i, hi, p) {
            assert(s.subrange(i as int, i + p@.len()) =~= v@.subrange(lo + i, lo + i + p@.len()));
            return Some(i);
        }
        assert(s.subrange(i as int, i + p@.len()) =~= v@.subrange(lo + i, lo + i + p@.len()));
        if p.len() == 0 {
            assert(v@.subrange(lo + i, lo + i + p@.len()) =~= p@);
        }
        i = i + 1;
    }
    None
}

/// `str::rfind(c)` on `v[lo..hi]`, as an offset from `lo`.
pub fn rfind_in(v: &Vec<char>, lo: usize, hi: usize, c: char) -> (r: Option<usize>)
    requires
        lo <= hi <= v@.len(),
    ensures
        match r {
            Some(k) => rfind_char(v@.subrange(lo as int, hi as int), c) == Some(k as int) && lo
                + k < hi,
            None => rfind_char(v@.subrange(lo as int, hi as int), c) is None,
        },
{
    let ghost s = v@.subrange(lo as int, hi as int);
    let mut n: usize = hi - lo;
    while n > 0
        invariant
            lo <= hi <= v@.len(),
            s == v@.subrange(lo as int, hi as int),
            n <= hi - lo,
            rfind_char(s, c) == rfind_upto(s, c, n as int),
        decreases n,
    {
        if v[lo + n - 1] == c {
            return Some(n - 1);
        }
        n = n - 1;
    }
    None
}

/// Whether `v[lo..hi]` contains `c`.
pub fn contains_char_in(v: &Vec<char>, lo: usize, hi: usize, c: char) -> (r: bool)
    requires
        lo <= hi <= v@.len(),
    ensures
        r == has_char(v@.subrange(lo as int, hi as int), c),
{
    let mut i = lo;
    while i < hi
        invariant
            lo <= i <= hi <= v@.len(),
            forall|j: int| lo <= j < i ==> v@[j] != c,
        decreases hi - i,
    {
        if v[i] == c {
            assert(v@.subrange(lo as int, hi as int)[i - lo] == c);
            return true;
        }
        i = i + 1;
    }
    assert forall|j: int| 0 <= j < hi - lo implies v@.subrange(lo as int, hi as int)[j] != c by {
        assert(v@.subrange(lo as int, hi as int)[j] == v@[lo + j]);
    }
    false
}

/// `str::trim` on `v[lo..hi]`, as a window of `v`.
pub fn trim_range(v: &Vec<char>, lo: usize, hi: usize) -> (r: (usize, usize))
    requires
        lo <= hi <= v@.len(),
    ensures
        lo <= r.0 <= r.1 <= hi,
        v@.subrange(r.0 as int, r.1 as int) == trim(v@.subrange(lo as int, hi as int)),
{
    let mut a = lo;
    while a < hi && is_whitespace(v[a])
        invariant
            lo <= a <= hi <= v@.len(),
            forall|j: int| lo <= j < a ==> is_ws(v@[j]),
        decreases hi - a,
    {
        a = a + 1;
    }
    proof {
        let s = v@.subrange(lo as int, hi as int);
        lemma_trim_start_skip(s, a - lo);
        assert(s.subrange(a - lo, s.len() as int) =~= v@.subrange(a as int, hi as int));
        let t = v@.subrange(a as int, hi as int);
        if t.len() > 0 {
            assert(t[0] == v@[a as int]);
        }
        assert(trim_start(s) == t);
    }
    let mut b = hi;
    while b > a && is_whitespace(v[b - 1])
        invariant
            a <= b <= hi <= v@.len(),
            forall|j: int| b <= j < hi ==> is_ws(v@[j]),
        decreases b - a,
    {
        b = b - 1;
    }
    proof {
        let t = v@.subrange(a as int, hi as int);
        lemma_trim_end_skip(t, b - a);
        assert(forall|j: int| b - a <= j < t.len() ==> t[j] == v@[a + j]);
        assert(t.subrange(0, b - a) =~= v@.subrange(a as int, b as int));
        let u = v@.subrange(a as int, b as int);
        if u.len() > 0 {
            assert(u.last() == v@[b - 1]);
        }
        assert(trim_end(t) == u);
    }
    (a, b)
}

/// `str::trim_matches(c)` on `v[lo..hi]`, as a window of `v`.
pub fn trim_matches_range(v: &Vec<char>, lo: usize, hi: usize, c: char) -> (r: (usize, usize))
    requires
        lo <= hi <= v@.len(),
    ensures
        lo <= r.0 <= r.1 <= hi,
        v@.subrange(r.0 as int, r.1 as int) == trim_matches(v@.subrange(lo as int, hi as int), c),
{
    let mut a = lo;
    while a < hi && v[a] == c
        invariant
            lo <= a <= hi <= v@.len(),
            trim_start_char(v@.subrange(lo as int, hi as int), c) == trim_start_char(
                v@.subrange(a as int, hi as int),
                c,
            ),
        decreases hi - a,
    {
        assert(v@.subrange(a as int, hi as int).drop_first() =~= v@.subrange(a + 1, hi as int));
        a = a + 1;
    }
    let mut b = hi;
    while b > a && v[b - 1] == c
        invariant
            a <= b <= hi <= v@.len(),
            trim_end_char(v@.subrange(a as int, hi as int), c) == trim_end_char(
                v@.subrange(a as int, b as int),
                c,
            ),
        decreases b - a,
    {
        assert(v@.subrange(a as int, b as int).drop_last() =~= v@.subrange(a as int, b - 1));
        b = b - 1;
    }
    (a, b)
}

/// Windows of `v[lo..hi]` for `str::split(c)`.
pub fn split_ranges(v: &Vec<char>, lo: usize, hi: usize, c: char) -> (r: Vec<(usize, usize)>)
    requires
        lo <= hi <= v@.len(),
    ensures
        r@.len() >= 1,
        forall|k: int| 0 <= k < r@.len() ==> lo <= (#[trigger] r@[k]).0 <= r@[k].1 <= hi,
        r@.map_values(|p: (usize, usize)| v@.subrange(p.0 as int, p.1 as int)) == split_char(
            v@.subrange(lo as int, hi as int),
            c,
        ),
{
    let ghost s = v@.subrange(lo as int, hi as int);
    let mut r: Vec<(usize, usize)> = Vec::new();
    let mut i = lo;
    loop
        invariant
            lo <= i <= hi <= v@.len(),
            s == v@.subrange(lo as int, hi as int),
            forall|k: int| 0 <= k < r@.len() ==> lo <= (#[trigger] r@[k]).0 <= r@[k].1 <= hi,
            r@.map_values(|p: (usize, usize)| v@.subrange(p.0 as int, p.1 as int)) + split_from(
                s,
                c,
                i - lo,
            ) == split_char(s, c),
        decreases hi - i,
    {
        let mut e = i;
        while e < hi && v[e] != c
            invariant
                lo <= i <= e <= hi <= v@.len(),
                s == v@.subrange(lo as int, hi as int),
                char_end(s, c, i - lo) == char_end(s, c, e - lo),
            decreases hi - e,
        {
            assert(s[e - lo] == v@[e as int]);
            e = e + 1;
        }
        let ghost old_r = r@;
        proof {
            lemma_char_end_bounds(s, c, i - lo);
            assert(s.subrange(i - lo, e - lo) =~= v@.subrange(i as int, e as int));
            assert(s.subrange(i - lo, s.len() as int) =~= v@.subrange(i as int, hi as int));
        }
        r.push((i, e));
        assert(r@.map_values(|p: (usize, usize)| v@.subrange(p.0 as int, p.1 as int)) =~= old_r.map_values(
            |p: (usize, usize)| v@.subrange(p.0 as int, p.1 as int),
        ).push(v@.subrange(i as int, e as int)));
        if e < hi {
            i = e + 1;
        } else {
            return r;
        }
    }
}

/// Windows of `v` for `str::lines`.
pub fn line_ranges(v: &Vec<char>) -> (r: Vec<(usize, usize)>)
    ensures
        forall|k: int| 0 <= k < r@.len() ==> (#[trigger] r@[k]).0 <= r@[k].1 <= v@.len(),
        r@.map_values(|p: (usize, usize)| v@.subrange(p.0 as int, p.1 as int)) == lines(v@),
{
    let mut r: Vec<(usize, usize)> = Vec::new();
    let mut i: usize = 0;
    let n = v.len();
    while i < n
        invariant
            n == v@.len(),
            i <= n,
            forall|k: int| 0 <= k < r@.len() ==> (#[trigger] r@[k]).0 <= r@[k].1 <= v@.len(),
            r@.map_values(|p: (usize, usize)| v@.subrange(p.0 as int, p.1 as int)) + lines_from(
                v@,
                i as int,
            ) == lines(v@),
        decreases n - i,
    {
        let mut e = i;
        while e < n && v[e] != '\n'
            invariant
                i <= e <= n == v@.len(),
                char_end(v@, '\n', i as int) == char_end(v@, '\n', e as int),
            decreases n - e,
        {
            e = e + 1;
        }
        proof {
            lemma_char_end_bounds(v@, '\n', i as int);
        }
        let ghost old_r = r@;
        if e < n {
            let mut end = e;
            if end > i && v[end - 1] == '\r' {
                end = end - 1;
            }
            proof {
                let l = v@.subrange(i as int, e as int);
                if e > i && v@[e - 1] == '\r' {
                    assert(l.last() == v@[e - 1]);
                    assert(l.drop_last() =~= v@.subrange(i as int, end as int));
                } else {
                    if l.len() > 0 {
                        assert(l.last() == v@[e - 1]);
                    }
                    assert(l =~= v@.subrange(i as int, end as int));
                }
            }
            r.push((i, end));
            assert(r@.map_values(|p: (usize, usize)| v@.subrange(p.0 as int, p.1 as int)) =~= old_r.map_values(
                |p: (usize, usize)| v@.subrange(p.0 as int, p.1 as int),
            ).push(v@.subrange(i as int, end as int)));
            i = e + 1;
        } else {
            r.push((i, n));
            assert(r@.map_values(|p: (usize, usize)| v@.subrange(p.0 as int, p.1 as int)) =~= old_r.map_values(
                |p: (usize, usize)| v@.subrange(p.0 as int, p.1 as int),
            ).push(v@.subrange(i as int, n as int)));
            i = n;
        }
    }
    r
}

/// Whether two character sequences are equal.
pub fn chars_eq(a: &Vec<char>, alo: usize, ahi: usize, b: &Vec<char>, blo: usize, bhi: usize) -> (r: bool)
    requires
        alo <= ahi <= a@.len(),
        blo <= bhi <= b@.len(),
    ensures
        r == (a@.subrange(alo as int, ahi as int) == b@.subrange(blo as int, bhi as int)),
{
    if ahi - alo != bhi - blo {
        assert(a@.subrange(alo as int, ahi as int).len() != b@.subrange(blo as int, bhi as int).len());
        return false;
    }
    let mut i: usize = 0;
    while i < ahi - alo
        invariant
            alo <= ahi <= a@.len(),
            blo <= bhi <= b@.len(),
            ahi - alo == bhi - blo,
            i <= ahi - alo,
            forall|j: int| 0 <= j < i ==> #[trigger] a@[alo + j] == b@[blo + j],
        decreases ahi - alo - i,
    {
        if a[alo + i] != b[blo + i] {
            assert(a@.subrange(alo as int, ahi as int)[i as int] != b@.subrange(blo as int, bhi as int)[i as int]);
            return false;
        }
        i = i + 1;
    }
    assert forall|j: int| 0 <= j < ahi - alo implies a@.subrange(alo as int, ahi as int)[j]
        == b@.subrange(blo as int, bhi as int)[j] by {
        assert(a@[alo + j] == b@[blo + j]);
    }
    assert(a@.subrange(alo as int, ahi as int) =~= b@.subrange(blo as int, bhi as int));
    true
}

/// Whether two strings hold the same characters.
pub fn str_eq(a: &str, b: &str) -> (r: bool)
    ensures
        r == (a@ == b@),
{
    let va = chars_of(a);
    let vb = chars_of(b);
    let r = chars_eq(&va, 0, va.len(), &vb, 0, vb.len());
    assert(va@.subrange(0, va@.len() as int) =~= va@);
    assert(vb@.subrange(0, vb@.len() as int) =~= vb@);
    r
}

fn digit_to_char(d: usize) -> (c: char)
    requires
        d < 10,
    ensures
        c == digit_char(d as nat),
{
    if d == 0 {
        '0'
    } else if d == 1 {
        '1'
    } else if d == 2 {
        '2'
    } else if d == 3 {
        '3'
    } else if d == 4 {
        '4'
    } else if d == 5 {
        '5'
    } else if d == 6 {
        '6'
    } else if d == 7 {
        '7'
    } else if d == 8 {
        '8'
    } else {
        '9'
    }
}

/// Appends the decimal rendering of `n` to `s`.
pub fn append_dec(s: &mut String, n: usize)
    ensures
        final(s)@ == old(s)@ + dec(n as nat),
    decreases n,
{
    if n < 10 {
        push_char(s, digit_to_char(n));
        assert(old(s)@.push(digit_char(n as nat)) =~= old(s)@ + seq![digit_char(n as nat)]);
    } else {
        append_dec(s, n / 10);
        push_char(s, digit_to_char(n % 10));
        assert(old(s)@ + dec(n as nat) =~= old(s)@ + dec((n / 10) as nat) + seq![
            digit_char((n % 10) as nat),
        ]);
    }
}

/// The decimal rendering of `n` (`usize::to_string`).
pub fn dec_string(n: usize) -> (r: String)
    ensures
        r@ == dec(n as nat),
{
    let mut s = String::new();
    append_dec(&mut s, n);
    assert(Seq::<char>::empty() + dec(n as nat) =~= dec(n as nat));
    s
}

// ── Number recognizers ──

proof fn lemma_digits_value_prefix(s: Seq<char>, j: int)
    requires
        0 <= j <= s.len(),
    ensures
        digits_value(s.subrange(0, j)) <= digits_value(s),
    decreases s.len() - j,
{
    if j < s.len() {
        lemma_digits_value_prefix(s.drop_last(), j);
        assert(s.drop_last().subrange(0, j) =~= s.subrange(0, j));
    } else {
        assert(s.subrange(0, j) =~= s);
    }
}

/// Whether `v[lo..hi]` is all ASCII digits with a value at most `limit`.
fn digits_within(v: &Vec<char>, lo: usize, hi: usize, limit: u64) -> (r: bool)
    requires
        lo <= hi <= v@.len(),
    ensures
        r == (all_digits(v@.subrange(lo as int, hi as int)) && digits_value(v@.subrange(lo as int, hi as int))
            <= limit),
{
    let ghost s = v@.subrange(lo as int, hi as int);
    let mut acc: u128 = 0;
    let mut i = lo;
    while i < hi
        invariant
            lo <= i <= hi <= v@.len(),
            s == v@.subrange(lo as int, hi as int),
            all_digits(s.subrange(0, i - lo)),
            acc == digits_value(s.subrange(0, i - lo)),
            acc <= limit,
        decreases hi - i,
    {
        let c = v[i];
        let ghost pre = s.subrange(0, i - lo);
        let ghost next = s.subrange(0, i + 1 - lo);
        assert(next.drop_last() =~= pre);
        assert(next.last() == c);
        if !('0' <= c && c <= '9') {
            assert(!is_digit(s[i - lo]));
            return false;
        }
        let d = (c as u32 - '0' as u32) as u128;
        acc = acc * 10 + d;
        assert(acc == digits_value(next));
        if acc > limit as u128 {
            proof {
                lemma_digits_value_prefix(s, i + 1 - lo);
            }
            return false;
        }
        i = i + 1;
    }
    assert(s.subrange(0, hi - lo) =~= s);
    true
}

/// Whether `v[lo..hi]` is text that `str::parse::<i64>` accepts.
pub fn i64_text_in(v: &Vec<char>, lo: usize, hi: usize) -> (r: bool)
    requires
        lo <= hi <= v@.len(),
    ensures
        r == is_i64_text(v@.subrange(lo as int, hi as int)),
{
    let ghost s = v@.subrange(lo as int, hi as int);
    if lo < hi && (v[lo] == '+' || v[lo] == '-') {
        assert(s[0] == v@[lo as int]);
        assert(s.drop_first() =~= v@.subrange(lo + 1, hi as int));
        let neg = v[lo] == '-';
        let limit: u64 = if neg {
            9223372036854775808
        } else {
            9223372036854775807
        };
        lo + 1 < hi && digits_within(v, lo + 1, hi, limit)
    } else {
        proof {
            if s.len() > 0 {
                assert(s[0] == v@[lo as int]);
            }
        }
        lo < hi && digits_within(v, lo, hi, 9223372036854775807)
    }
}

/// Whether `v[lo..hi]` is text that `str::parse::<u32>` accepts.
pub fn u32_text_in(v: &Vec<char>, lo: usize, hi: usize) -> (r: bool)
    requires
        lo <= hi <= v@.len(),
    ensures
        r == is_u32_text(v@.subrange(lo as int, hi as int)),
{
    let ghost s = v@.subrange(lo as int, hi as int);
    if lo < hi && v[lo] == '+' {
        assert(s[0] == v@[lo as int]);
        assert(s.drop_first() =~= v@.subrange(lo + 1, hi as int));
        lo + 1 < hi && digits_within(v, lo + 1, hi, 4294967295)
    } else {
        proof {
            if s.len() > 0 {
                assert(s[0] == v@[lo as int]);
            }
        }
        lo < hi && digits_within(v, lo, hi, 4294967295)
    }
}

fn all_digits_in(v: &Vec<char>, lo: usize, hi: usize) -> (r: bool)
    requires
        lo <= hi <= v@.len(),
    ensures
        r == all_digits(v@.subrange(lo as int, hi as int)),
{
    let mut i = lo;
    while i < hi
        invariant
            lo <= i <= hi <= v@.len(),
            forall|j: int| lo <= j < i ==> is_digit(v@[j]),
        decreases hi - i,
    {
        if !('0' <= v[i] && v[i] <= '9') {
            assert(v@.subrange(lo as int, hi as int)[i - lo] == v@[i as int]);
            return false;
        }
        i = i + 1;
    }
    assert forall|j: int| 0 <= j < hi - lo implies is_digit(#[trigger] v@.subrange(lo as int, hi as int)[j]) by {
        assert(v@.subrange(lo as int, hi as int)[j] == v@[lo + j]);
    }
    true
}

/// Whether `v[lo..hi]` is `Digit+`, `Digit+ '.' Digit*` or `Digit* '.' Digit+`.
fn mantissa_in(v: &Vec<char>, lo: usize, hi: usize) -> (r: bool)
    requires
        lo <= hi <= v@.len(),
    ensures
        r == is_mantissa(v@.subrange(lo as int, hi as int)),
{
    let ghost m = v@.subrange(lo as int, hi as int);
    let mut i = lo;
    while i < hi && v[i] != '.'
        invariant
            lo <= i <= hi <= v@.len(),
            forall|j: int| lo <= j < i ==> v@[j] != '.',
        decreases hi - i,
    {
        i = i + 1;
    }
    if i == hi {
        let r = lo < hi && all_digits_in(v, lo, hi);
        proof {
            if exists|j: int| 0 <= j < m.len() && #[trigger] m[j] == '.' && all_digits(m.subrange(0, j)) && all_digits(
                m.subrange(j + 1, m.len() as int),
            ) && (j > 0 || j + 1 < m.len()) {
                let j = choose|j: int| 0 <= j < m.len() && #[trigger] m[j] == '.' && all_digits(m.subrange(0, j)) && all_digits(
                    m.subrange(j + 1, m.len() as int),
                ) && (j > 0 || j + 1 < m.len());
                assert(m[j] == v@[lo + j]);
            }
        }
        return r;
    }
    let a = all_digits_in(v, lo, i);
    let b = all_digits_in(v, i + 1, hi);
    let j = i - lo;
    assert(m[j as int] == '.');
    assert(m.subrange(0, j as int) =~= v@.subrange(lo as int, i as int));
    assert(m.subrange(j + 1, m.len() as int) =~= v@.subrange(i + 1, hi as int));
    proof {
        if exists|k: int| 0 <= k < m.len() && #[trigger] m[k] == '.' && all_digits(m.subrange(0, k)) && all_digits(
            m.subrange(k + 1, m.len() as int),
        ) && (k > 0 || k + 1 < m.len()) {
            let k = choose|k: int| 0 <= k < m.len() && #[trigger] m[k] == '.' && all_digits(m.subrange(0, k)) && all_digits(
                m.subrange(k + 1, m.len() as int),
            ) && (k > 0 || k + 1 < m.len());
            if k < j {
                assert(m.subrange(k + 1, m.len() as int)[j - k - 1] == '.');
            } else if k > j {
                assert(m.subrange(0, k)[j as int] == '.');
            }
        }
        if !(m.len() > 0 && all_digits(m)) {
        } else {
            assert(!is_digit(m[j as int]));
        }
    }
    a && b && (i > lo || i + 1 < hi)
}

/// Whether `v[lo..hi]` is a decimal number with an optional exponent.
fn number_body_in(v: &Vec<char>, lo: usize, hi: usize) -> (r: bool)
    requires
        lo <= hi <= v@.len(),
    ensures
        r == is_number_body(v@.subrange(lo as int, hi as int)),
{
    let ghost b = v@.subrange(lo as int, hi as int);
    let mut k = lo;
    while k < hi && v[k] != 'e' && v[k] != 'E'
        invariant
            lo <= k <= hi <= v@.len(),
            forall|j: int| lo <= j < k ==> v@[j] != 'e' && v@[j] != 'E',
        decreases hi - k,
    {
        k = k + 1;
    }
    if k == hi {
        let r = mantissa_in(v, lo, hi);
        proof {
            if exists|q: int| 0 <= q < b.len() && (#[trigger] b[q] == 'e' || b[q] == 'E') && is_mantissa(
                b.subrange(0, q),
            ) && is_exponent_digits(b.subrange(q + 1, b.len() as int)) {
                let q = choose|q: int| 0 <= q < b.len() && (#[trigger] b[q] == 'e' || b[q] == 'E') && is_mantissa(
                    b.subrange(0, q),
                ) && is_exponent_digits(b.subrange(q + 1, b.len() as int));
                assert(b[q] == v@[lo + q]);
            }
        }
        return r;
    }
    let ghost kk = k - lo;
    assert(b[kk] == v@[k as int]);
    let m = mantissa_in(v, lo, k);
    let (ea, eb) = (k + 1, hi);
    let e_ok = if ea < eb && (v[ea] == '+' || v[ea] == '-') {
        ea + 1 < eb && all_digits_in(v, ea + 1, eb)
    } else {
        ea < eb && all_digits_in(v, ea, eb)
    };
    proof {
        let e = b.subrange(kk + 1, b.len() as int);
        assert(e =~= v@.subrange(ea as int, eb as int));
        if e.len() > 0 {
            assert(e[0] == v@[ea as int]);
            assert(e.drop_first() =~= v@.subrange(ea + 1, eb as int));
        }
        assert(b.subrange(0, kk) =~= v@.subrange(lo as int, k as int));
        assert(e_ok == is_exponent_digits(e));
        if is_mantissa(b) {
            if b.len() > 0 && all_digits(b) {
                assert(!is_digit(b[kk]));
            } else {
                let j = choose|j: int| 0 <= j < b.len() && #[trigger] b[j] == '.' && all_digits(b.subrange(0, j)) && all_digits(
                    b.subrange(j + 1, b.len() as int),
                ) && (j > 0 || j + 1 < b.len());
                if j < kk {
                    assert(b.subrange(j + 1, b.len() as int)[kk - j - 1] == b[kk]);
                } else {
                    assert(b.subrange(0, j)[kk] == b[kk]);
                }
            }
        }
        if exists|q: int| 0 <= q < b.len() && (#[trigger] b[q] == 'e' || b[q] == 'E') && is_mantissa(
            b.subrange(0, q),
        ) && is_exponent_digits(b.subrange(q + 1, b.len() as int)) {
            let q = choose|q: int| 0 <= q < b.len() && (#[trigger] b[q] == 'e' || b[q] == 'E') && is_mantissa(
                b.subrange(0, q),
            ) && is_exponent_digits(b.subrange(q + 1, b.len() as int));
            assert(b[q] == v@[lo + q]);
            if q > kk {
                let pre = b.subrange(0, q);
                assert(pre[kk] == b[kk]);
                if pre.len() > 0 && all_digits(pre) {
                    assert(!is_digit(pre[kk]));
                } else {
                    let j = choose|j: int| 0 <= j < pre.len() && #[trigger] pre[j] == '.' && all_digits(pre.subrange(0, j))
                        && all_digits(pre.subrange(j + 1, pre.len() as int)) && (j > 0 || j + 1 < pre.len());
                    if j < kk {
                        assert(pre.subrange(j + 1, pre.len() as int)[kk - j - 1] == pre[kk]);
                    } else {
                        assert(pre.subrange(0, j)[kk] == pre[kk]);
                    }
                }
            }
        }
        if m && e_ok {
            assert(b[kk] == 'e' || b[kk] == 'E');
        }
    }
    m && e_ok
}

fn lowered_is(v: &Vec<char>, lo: usize, hi: usize, word: &[char]) -> (r: bool)
    requires
        lo <= hi <= v@.len(),
    ensures
        r == (lowered(v@.subrange(lo as int, hi as int)) == word@),
{
    let ghost s = v@.subrange(lo as int, hi as int);
    if hi - lo != word.len() {
        assert(lowered(s).len() != word@.len());
        return false;
    }
    let mut i: usize = 0;
    while i < word.len()
        invariant
            i <= word@.len(),
            hi - lo == word@.len(),
            lo <= hi <= v@.len(),
            s == v@.subrange(lo as int, hi as int),
            forall|j: int| 0 <= j < i ==> ascii_lower(#[trigger] s[j]) == word@[j],
        decreases word@.len() - i,
    {
        let c = v[lo + i];
        assert(s[i as int] == c);
        let l = if 'A' <= c && c <= 'Z' {
            ((c as u8) + 32) as char
        } else {
            c
        };
        if l != word[i] {
            assert(lowered(s)[i as int] != word@[i as int]);
            return false;
        }
        i = i + 1;
    }
    assert(lowered(s) =~= word@);
    true
}

/// Whether `v[lo..hi]` is text that `str::parse::<f64>` accepts.
pub fn f64_text_in(v: &Vec<char>, lo: usize, hi: usize) -> (r: bool)
    requires
        lo <= hi <= v@.len(),
    ensures
        r == is_f64_text(v@.subrange(lo as int, hi as int)),
{
    let ghost s = v@.subrange(lo as int, hi as int);
    let start = if lo < hi && (v[lo] == '+' || v[lo] == '-') {
        lo + 1
    } else {
        lo
    };
    proof {
        if s.len() > 0 {
            assert(s[0] == v@[lo as int]);
        }
        assert(drop_sign(s) =~= v@.subrange(start as int, hi as int));
    }
    let inf: &[char] = &['i', 'n', 'f'];
    let infinity: &[char] = &['i', 'n', 'f', 'i', 'n', 'i', 't', 'y'];
    let nan: &[char] = &['n', 'a', 'n'];
    assert(inf@ =~= seq!['i', 'n', 'f']);
    assert(infinity@ =~= seq!['i', 'n', 'f', 'i', 'n', 'i', 't', 'y']);
    assert(nan@ =~= seq!['n', 'a', 'n']);
    lowered_is(v, start, hi, inf) || lowered_is(v, start, hi, infinity) || lowered_is(v, start, hi, nan)
        || number_body_in(v, start, hi)
}


/// `split_whitespace().count()` on `v[lo..hi]`.
pub fn count_words_in(v: &Vec<char>, lo: usize, hi: usize) -> (r: usize)
    requires
        lo <= hi <= v@.len(),
    ensures
        r == count_words(v@.subrange(lo as int, hi as int)),
{
    let ghost s = v@.subrange(lo as int, hi as int);
    let mut n: usize = 0;
    let mut i = lo;
    assert(s.subrange(0, 0) =~= Seq::<char>::empty());
    while i < hi
        invariant
            lo <= i <= hi <= v@.len(),
            s == v@.subrange(lo as int, hi as int),
            n == count_words(s.subrange(0, i - lo)),
            n <= i - lo,
        decreases hi - i,
    {
        let ghost next = s.subrange(0, i + 1 - lo);
        assert(next.drop_last() =~= s.subrange(0, i - lo));
        assert(next.last() == v@[i as int]);
        if i > lo {
            assert(next[next.len() - 2] == v@[i - 1]);
        }
        if !is_whitespace(v[i]) && (i == lo || is_whitespace(v[i - 1])) {
            n = n + 1;
        }
        i = i + 1;
    }
    assert(s.subrange(0, hi - lo) =~= s);
    n
}


} // verus!
