//! Character sequences: conversions between strings and character vectors,
//! character classes, maximal runs, line counting and decimal rendering.

use vstd::prelude::*;

verus! {

/// `String::push` appends one character to the end of the string.
pub assume_specification[ String::push ](s: &mut String, c: char)
    ensures
        final(s)@ == old(s)@.push(c),
;

/// The text that the standard `Debug` formatting of a string slice produces
/// for the characters `s`: the characters between double quotes, with
/// escapes for quotes, backslashes, control and unprintable characters.
pub uninterp spec fn debug_quoted(s: Seq<char>) -> Seq<char>;

/// Formats `s` with the standard `Debug` implementation of `str` (`{:?}`).
/// The result is a function of the characters alone; it is known to the
/// verifier only by the name `debug_quoted`.
#[verifier::external_body]
pub(crate) fn debug_quote(s: &str) -> (out: String)
    ensures
        out@ == debug_quoted(s@),
{
    format!("{:?}", s)
}

/// The characters of `src`, in order.
pub fn to_chars(src: &str) -> (out: Vec<char>)
    ensures
        out@ == src@,
{
    let mut out: Vec<char> = Vec::new();
    for c in it: src.chars()
        invariant
            out@ == it.seq().take(it.index() as int),
            it.seq() == src@,
    {
        out.push(c);
    }
    out
}

/// The string made of `chars[from..to]`.
pub fn substring(chars: &[char], from: usize, to: usize) -> (out: String)
    requires
        from <= to <= chars@.len(),
    ensures
        out@ == chars@.subrange(from as int, to as int),
{
    let mut out = String::new();
    let mut i: usize = from;
    while i < to
        invariant
            from <= i <= to <= chars@.len(),
            out@ == chars@.subrange(from as int, i as int),
        decreases to - i,
    {
        out.push(chars[i]);
        i += 1;
    }
    out
}

/// Whether `chars` spells exactly `text`.
pub fn spells(chars: &[char], text: &str) -> (r: bool)
    ensures
        r == (chars@ == text@),
{
    let n = text.unicode_len();
    if chars.len() != n {
        return false;
    }
    let mut i: usize = 0;
    while i < n
        invariant
            n == text@.len(),
            n == chars@.len(),
            i <= n,
            chars@.take(i as int) == text@.take(i as int),
        decreases n - i,
    {
        if chars[i] != text.get_char(i) {
            return false;
        }
        assert(chars@.take(i + 1) == chars@.take(i as int).push(chars@[i as int]));
        assert(text@.take(i + 1) == text@.take(i as int).push(text@[i as int]));
        i += 1;
    }
    assert(chars@.take(n as int) == chars@);
    assert(text@.take(n as int) == text@);
    true
}

/// The classes of characters that the scanner consumes in runs.
#[derive(Debug, Clone, Copy, PartialEq, Eq, Structural)]
pub enum CharClass {
    /// `0` to `9`.
    Digit,
    /// Letters, digits and the underscore.
    Word,
    /// Anything but a double quote.
    Quoted,
    /// Anything but a line feed.
    Comment,
}

/// Whether `c` is one of the digits `0` to `9`.
pub open spec fn is_digit(c: char) -> bool {
    '0' <= c <= '9'
}

/// Whether `c` can start a word: a letter of the Latin alphabet or an
/// underscore.
pub open spec fn is_alpha(c: char) -> bool {
    c == '_' || 'a' <= c <= 'z' || 'A' <= c <= 'Z'
}

impl CharClass {
    /// Whether `c` belongs to the class.
    pub open spec fn has(self, c: char) -> bool {
        match self {
            CharClass::Digit => is_digit(c),
            CharClass::Word => is_alpha(c) || is_digit(c),
            CharClass::Quoted => c != '"',
            CharClass::Comment => c != '\n',
        }
    }

    /// Whether `c` belongs to the class.
    pub fn contains(self, c: char) -> (r: bool)
        ensures
            r == self.has(c),
    {
        match self {
            CharClass::Digit => c >= '0' && c <= '9',
            CharClass::Word => c == '_' || (c >= 'a' && c <= 'z') || (c >= 'A' && c <= 'Z') || (c
                >= '0' && c <= '9'),
            CharClass::Quoted => c != '"',
            CharClass::Comment => c != '\n',
        }
    }
}

/// The length of the longest run of characters of `class` that starts at
/// `from` (zero when `from` is outside `s`).
pub open spec fn run_len(s: Seq<char>, from: int, class: CharClass) -> nat
    decreases s.len() - from,
{
    if 0 <= from < s.len() && class.has(s[from]) {
        1 + run_len(s, from + 1, class)
    } else {
        0
    }
}

/// The position at which the run of `class` that starts at `from` ends.
pub fn run_end(chars: &[char], from: usize, class: CharClass) -> (end: usize)
    requires
        from <= chars@.len(),
    ensures
        end == from + run_len(chars@, from as int, class),
        end <= chars@.len(),
{
    let mut end: usize = from;
    while end < chars.len() && class.contains(chars[end])
        invariant
            from <= end <= chars@.len(),
            forall|k: int| from <= k < end ==> class.has(#[trigger] chars@[k]),
        decreases chars@.len() - end,
    {
        end += 1;
    }
    proof {
        lemma_run_len_unique(chars@, from as int, end as int, class);
    }
    end
}

/// A run is made of characters of its class and cannot be extended: it
/// stops at the end of `s` or before a character outside the class.
pub proof fn lemma_run_len(s: Seq<char>, from: int, class: CharClass)
    requires
        0 <= from <= s.len(),
    ensures
        from + run_len(s, from, class) <= s.len(),
        forall|k: int| from <= k < from + run_len(s, from, class) ==> class.has(#[trigger] s[k]),
        from + run_len(s, from, class) < s.len() ==> !class.has(
            s[from + run_len(s, from, class)],
        ),
    decreases s.len() - from,
{
    if from < s.len() && class.has(s[from]) {
        lemma_run_len(s, from + 1, class);
    }
}

/// A stretch of characters of the class that cannot be extended is the run.
pub proof fn lemma_run_len_unique(s: Seq<char>, from: int, end: int, class: CharClass)
    requires
        0 <= from <= end <= s.len(),
        forall|k: int| from <= k < end ==> class.has(#[trigger] s[k]),
        end < s.len() ==> !class.has(s[end]),
    ensures
        from + run_len(s, from, class) == end,
    decreases end - from,
{
    if from < end {
        lemma_run_len_unique(s, from + 1, end, class);
    }
}

/// The number of line feeds among the first `end` characters of `s`.
pub open spec fn newlines(s: Seq<char>, end: int) -> nat
    decreases end,
{
    if end <= 0 {
        0
    } else {
        newlines(s, end - 1) + if s[end - 1] == '\n' {
            1nat
        } else {
            0nat
        }
    }
}

/// The number of the line, counted from 1, that position `pos` of `s` is on.
pub open spec fn line_at(s: Seq<char>, pos: int) -> nat {
    1 + newlines(s, pos)
}

/// There are at most as many line feeds as characters, and fewer where
/// some character before `end` is not a line feed.
pub proof fn lemma_newlines_bound(s: Seq<char>, end: int)
    requires
        0 <= end,
    ensures
        newlines(s, end) <= end,
        forall|k: int| 0 <= k < end && #[trigger] s[k] != '\n' ==> newlines(s, end) < end,
    decreases end,
{
    if end > 0 {
        lemma_newlines_bound(s, end - 1);
    }
}

/// A stretch without line feeds leaves the count unchanged.
pub proof fn lemma_newlines_same_line(s: Seq<char>, a: int, b: int)
    requires
        0 <= a <= b,
        forall|k: int| a <= k < b ==> #[trigger] s[k] != '\n',
    ensures
        newlines(s, a) == newlines(s, b),
    decreases b - a,
{
    if a < b {
        lemma_newlines_same_line(s, a, b - 1);
    }
}

/// The character of the decimal digit `d`.
pub open spec fn digit_char(d: int) -> char
    recommends
        0 <= d <= 9,
{
    if d == 0 {
        '0'
    } else if d == 1 {
        '1'
    } else if d == 2 {
        '2'
    } else if d == 3 {
        '3'
    } else if d == 4 {
        '4'
    } else if d == 5 {
        '5'
    } else if d == 6 {
        '6'
    } else if d == 7 {
        '7'
    } else if d == 8 {
        '8'
    } else {
        '9'
    }
}

/// The decimal numeral of `n`, without leading zeros.
pub open spec fn decimal_digits(n: nat) -> Seq<char>
    decreases n,
{
    if n < 10 {
        seq![digit_char(n as int)]
    } else {
        decimal_digits(n / 10).push(digit_char((n % 10) as int))
    }
}

/// Appends the decimal numeral of `n` to `out`.
pub fn push_decimal(out: &mut String, n: usize)
    ensures
        final(out)@ == old(out)@ + decimal_digits(n as nat),
    decreases n,
{
    if n >= 10 {
        push_decimal(out, n / 10);
    }
    let d: u8 = (n % 10) as u8;
    let c: char = (48u8 + d) as char;
    assert(c == digit_char(d as int));
    out.push(c);
    assert(out@ == old(out)@ + decimal_digits(n as nat));
}

} // verus!
