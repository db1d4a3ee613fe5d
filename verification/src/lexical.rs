//! Character classes and maximal runs of characters of one class.

use vstd::prelude::*;

verus! {

/// The character classes that the grammars scan for.
#[derive(Clone, Copy, Debug)]
pub enum CharClass {
    /// `0-9`
    Digit,
    /// `0-9`, `a-f`, `A-F`
    HexDigit,
    /// ASCII letters and digits
    Alphanumeric,
    /// ASCII letters and digits, `_`, `-`, `.`
    Identifier,
    /// space and tab
    Space,
    /// space, tab, carriage return, line feed
    Multispace,
    /// characters with the Unicode property `White_Space`
    Whitespace,
    /// anything but a carriage return or a line feed
    LineText,
}

/// `0` to `9`.
pub open spec fn is_digit(c: char) -> bool {
    '0' <= c <= '9'
}

/// A digit, or a letter from `a` to `f` in either case.
pub open spec fn is_hex_digit(c: char) -> bool {
    is_digit(c) || 'a' <= c <= 'f' || 'A' <= c <= 'F'
}

/// An ASCII letter or digit.
pub open spec fn is_alphanumeric(c: char) -> bool {
    is_digit(c) || 'a' <= c <= 'z' || 'A' <= c <= 'Z'
}

/// A character of a bare key.
pub open spec fn is_identifier_char(c: char) -> bool {
    is_alphanumeric(c) || c == '_' || c == '-' || c == '.'
}

/// A space or a tab.
pub open spec fn is_space(c: char) -> bool {
    c == ' ' || c == '\t'
}

/// A space, a tab, a carriage return or a line feed.
pub open spec fn is_multispace(c: char) -> bool {
    c == ' ' || c == '\t' || c == '\r' || c == '\n'
}

/// The code points with the Unicode property `White_Space`.
pub open spec fn is_whitespace(c: char) -> bool {
    let n = c as u32;
    ||| 0x09 <= n <= 0x0d
    ||| n == 0x20
    ||| n == 0x85
    ||| n == 0xa0
    ||| n == 0x1680
    ||| 0x2000 <= n <= 0x200a
    ||| n == 0x2028
    ||| n == 0x2029
    ||| n == 0x202f
    ||| n == 0x205f
    ||| n == 0x3000
}

/// A character that does not begin a line ending.
pub open spec fn is_line_text(c: char) -> bool {
    c != '\r' && c != '\n'
}

impl CharClass {
    /// Whether `c` belongs to the class.
    pub open spec fn contains(self, c: char) -> bool {
        match self {
            CharClass::Digit => is_digit(c),
            CharClass::HexDigit => is_hex_digit(c),
            CharClass::Alphanumeric => is_alphanumeric(c),
            CharClass::Identifier => is_identifier_char(c),
            CharClass::Space => is_space(c),
            CharClass::Multispace => is_multispace(c),
            CharClass::Whitespace => is_whitespace(c),
            CharClass::LineText => is_line_text(c),
        }
    }

    /// Tests whether `c` belongs to the class.
    pub fn has(self, c: char) -> (b: bool)
        ensures
            b == self.contains(c),
    {
        let n: u32 = c as u32;
        let digit = 48 <= n && n <= 57;
        let lower = 97 <= n && n <= 122;
        let upper = 65 <= n && n <= 90;
        match self {
            CharClass::Digit => digit,
            CharClass::HexDigit => digit || (97 <= n && n <= 102) || (65 <= n && n <= 70),
            CharClass::Alphanumeric => digit || lower || upper,
            CharClass::Identifier => digit || lower || upper || n == 95 || n == 45 || n == 46,
            CharClass::Space => n == 32 || n == 9,
            CharClass::Multispace => n == 32 || n == 9 || n == 13 || n == 10,
            CharClass::Whitespace => (0x09 <= n && n <= 0x0d) || n == 0x20 || n == 0x85 || n == 0xa0
                || n == 0x1680 || (0x2000 <= n && n <= 0x200a) || n == 0x2028 || n == 0x2029
                || n == 0x202f || n == 0x205f || n == 0x3000,
            CharClass::LineText => n != 13 && n != 10,
        }
    }
}

/// Where the longest run of characters of class `k` that starts at `i` ends.
pub open spec fn run_end(s: Seq<char>, i: int, k: CharClass) -> int
    decreases s.len() - i,
{
    if 0 <= i < s.len() && k.contains(s[i]) {
        run_end(s, i + 1, k)
    } else {
        i
    }
}

/// A run ends inside the text, holds only characters of its class, and
/// cannot be extended.
pub proof fn lemma_run_end(s: Seq<char>, i: int, k: CharClass)
    requires
        0 <= i <= s.len(),
    ensures
        i <= run_end(s, i, k) <= s.len(),
        forall|j: int| i <= j < run_end(s, i, k) ==> k.contains(#[trigger] s[j]),
        run_end(s, i, k) < s.len() ==> !k.contains(s[run_end(s, i, k)]),
    decreases s.len() - i,
{
    if i < s.len() && k.contains(s[i]) {
        lemma_run_end(s, i + 1, k);
    }
}

/// A run inside a piece of the text is the run in the whole text, cut at
/// the piece's end.
pub proof fn lemma_run_end_subrange(s: Seq<char>, a: int, b: int, j: int, k: CharClass)
    requires
        0 <= a <= a + j <= b <= s.len(),
        0 <= j,
    ensures
        run_end(s.subrange(a, b), j, k) + a == if run_end(s, a + j, k) <= b {
            run_end(s, a + j, k)
        } else {
            b
        },
    decreases b - a - j,
{
    lemma_run_end(s, a + j, k);
    if a + j < b {
        assert(s.subrange(a, b)[j] == s[a + j]);
        if k.contains(s[a + j]) {
            lemma_run_end_subrange(s, a, b, j + 1, k);
        }
    }
}

/// Scans the longest run of characters of class `k` from `i`.
pub fn scan(s: &Vec<char>, i: usize, k: CharClass) -> (end: usize)
    requires
        i <= s.len(),
    ensures
        end == run_end(s@, i as int, k),
        i <= end <= s.len(),
{
    let mut j: usize = i;
    while j < s.len() && k.has(s[j])
        invariant
            i <= j <= s.len(),
            run_end(s@, i as int, k) == run_end(s@, j as int, k),
        decreases s.len() - j,
    {
        j += 1;
    }
    j
}

/// Whether the two characters `a`, `b` stand at `i`.
pub open spec fn pair_at(s: Seq<char>, i: int, a: char, b: char) -> bool {
    0 <= i && i + 1 < s.len() && s[i] == a && s[i + 1] == b
}

/// Tests whether the two characters `a`, `b` stand at `i`.
pub fn has_pair(s: &Vec<char>, i: usize, a: char, b: char) -> (r: bool)
    ensures
        r == pair_at(s@, i as int, a, b),
{
    i < s.len() && s.len() - i >= 2 && s[i] == a && s[i + 1] == b
}

/// Whether the character `a` stands at `i`.
pub open spec fn char_at(s: Seq<char>, i: int, a: char) -> bool {
    0 <= i < s.len() && s[i] == a
}

/// Tests whether the character `a` stands at `i`.
pub fn has_char(s: &Vec<char>, i: usize, a: char) -> (r: bool)
    ensures
        r == char_at(s@, i as int, a),
{
    i < s.len() && s[i] == a
}

/// A line ending at `i`, a line feed or a carriage return and a line feed:
/// the position behind it.
pub open spec fn line_ending_at(s: Seq<char>, i: int) -> Option<int> {
    if char_at(s, i, '\n') {
        Some(i + 1)
    } else if pair_at(s, i, '\r', '\n') {
        Some(i + 2)
    } else {
        None
    }
}

/// The end of the text or a line ending at `i`: the position behind it.
pub open spec fn end_of_line_at(s: Seq<char>, i: int) -> Option<int> {
    if i == s.len() {
        Some(i)
    } else {
        line_ending_at(s, i)
    }
}

/// Recognizes a line ending.
pub fn line_ending(s: &Vec<char>, i: usize) -> (r: Option<usize>)
    requires
        i <= s.len(),
    ensures
        match line_ending_at(s@, i as int) {
            Some(e) => r == Some(e as usize) && i < e <= s.len(),
            None => r is None,
        },
{
    if has_char(s, i, '\n') {
        Some(i + 1)
    } else if has_pair(s, i, '\r', '\n') {
        Some(i + 2)
    } else {
        None
    }
}

/// Recognizes the end of the text or a line ending.
pub fn end_of_line(s: &Vec<char>, i: usize) -> (r: Option<usize>)
    requires
        i <= s.len(),
    ensures
        match end_of_line_at(s@, i as int) {
            Some(e) => r == Some(e as usize) && i <= e <= s.len(),
            None => r is None,
        },
{
    if i == s.len() {
        Some(i)
    } else {
        line_ending(s, i)
    }
}

} // verus!
