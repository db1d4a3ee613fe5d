//! Heredocs: multi-line strings that end at a delimiter word.

use vstd::prelude::*;
use crate::lexical::{
    char_at, end_of_line, end_of_line_at, has_char, has_pair, lemma_run_end, line_ending,
    line_ending_at, pair_at, run_end, scan, CharClass,
};
use crate::strings::find_char;
use crate::text::string_of;

verus! {

/// Whether `pat` stands at `j`.
pub open spec fn occurs_at(s: Seq<char>, j: int, pat: Seq<char>) -> bool {
    0 <= j && j + pat.len() <= s.len() && s.subrange(j, j + pat.len()) == pat
}

/// The first position from `i` on at which `pat` stands.
pub open spec fn find_sub(s: Seq<char>, i: int, pat: Seq<char>) -> Option<int>
    decreases s.len() - i,
{
    if i < 0 || i + pat.len() > s.len() {
        None
    } else if occurs_at(s, i, pat) {
        Some(i)
    } else if i < s.len() {
        find_sub(s, i + 1, pat)
    } else {
        None
    }
}

/// The lines of `t`: the pieces between its line feeds. A text without a
/// line feed is one line.
pub open spec fn split_lines(t: Seq<char>) -> Seq<Seq<char>>
    decreases t.len(),
{
    match find_char(t, 0, '\n') {
        Some(j) => if 0 <= j < t.len() {
            seq![t.take(j)] + split_lines(t.skip(j + 1))
        } else {
            seq![t]
        },
        None => seq![t],
    }
}

/// The number of whitespace characters that `line` begins with.
pub open spec fn indent(line: Seq<char>) -> int {
    run_end(line, 0, CharClass::Whitespace)
}

/// The width after one more line: the line's indentation where that is
/// smaller, zero where it is larger.
pub open spec fn dedent_step(width: int, k: int) -> int {
    if k < width {
        k
    } else if width < k {
        0
    } else {
        width
    }
}

/// How many leading characters a heredoc with `-` loses on each of
/// `lines`: the first line's indentation, which each further line in
/// turn lowers to its own, or resets to zero where it is indented more.
pub open spec fn dedent_width(lines: Seq<Seq<char>>) -> int
    decreases lines.len(),
{
    if lines.len() == 0 {
        0
    } else if lines.len() == 1 {
        indent(lines[0])
    } else {
        dedent_step(dedent_width(lines.drop_last()), indent(lines.last()))
    }
}

/// `lines`, each without its first `m` characters.
pub open spec fn stripped(lines: Seq<Seq<char>>, m: int) -> Seq<Seq<char>> {
    Seq::new(lines.len(), |x: int| lines[x].skip(m))
}

/// `lines` with a line feed between each two.
pub open spec fn join_lines(lines: Seq<Seq<char>>) -> Seq<char>
    decreases lines.len(),
{
    if lines.len() == 0 {
        Seq::empty()
    } else if lines.len() == 1 {
        lines[0]
    } else {
        join_lines(lines.drop_last()) + seq!['\n'] + lines.last()
    }
}

/// The value of a heredoc with the text `body` before its closing
/// delimiter: the lines of `body` but the last, without their common
/// indentation where `dedent` is set, joined by line feeds, and a line
/// feed at the end.
pub open spec fn heredoc_text(body: Seq<char>, dedent: bool) -> Seq<char> {
    let lines = split_lines(body).drop_last();
    let m = if dedent {
        dedent_width(lines)
    } else {
        0
    };
    join_lines(stripped(lines, m)) + seq!['\n']
}

/// Where the heredoc's first line ends, given that `<<` stands at `i`:
/// the delimiter's start and end and the body's start.
pub open spec fn heredoc_head(s: Seq<char>, i: int) -> Option<(int, int, int)> {
    let d0 = if char_at(s, i + 2, '-') {
        i + 3
    } else {
        i + 2
    };
    let d1 = run_end(s, d0, CharClass::Alphanumeric);
    if pair_at(s, i, '<', '<') && d1 > d0 {
        match line_ending_at(s, d1) {
            Some(b) => Some((d0, d1, b)),
            None => None,
        }
    } else {
        None
    }
}

/// A heredoc at `i`: `<<`, an optional `-`, a delimiter of letters and
/// digits, a line ending, the body up to the first place where the
/// delimiter stands again, the delimiter, and a line ending or the end of
/// the text.
pub open spec fn heredoc_at(s: Seq<char>, i: int) -> Option<(Seq<char>, int)> {
    match heredoc_head(s, i) {
        None => None,
        Some((d0, d1, b)) => match find_sub(s, b, s.subrange(d0, d1)) {
            None => None,
            Some(k) => match end_of_line_at(s, k + (d1 - d0)) {
                None => None,
                Some(e) => Some((heredoc_text(s.subrange(b, k), char_at(s, i + 2, '-')), e)),
            },
        },
    }
}

/// The width never exceeds the indentation of any of the lines.
pub proof fn lemma_dedent_width_bound(lines: Seq<Seq<char>>, x: int)
    requires
        0 <= x < lines.len(),
    ensures
        0 <= dedent_width(lines) <= indent(lines[x]) <= lines[x].len(),
    decreases lines.len(),
{
    lemma_run_end(lines[x], 0, CharClass::Whitespace);
    lemma_run_end(lines.last(), 0, CharClass::Whitespace);
    if lines.len() > 1 {
        if x < lines.len() - 1 {
            lemma_dedent_width_bound(lines.drop_last(), x);
        } else {
            lemma_dedent_width_bound(lines.drop_last(), 0);
        }
    }
}

/// Lines that are all indented by the same `n` characters lose exactly
/// these.
pub proof fn lemma_uniform_indent(lines: Seq<Seq<char>>, n: int)
    requires
        lines.len() > 0,
        forall|x: int| 0 <= x < lines.len() ==> indent(#[trigger] lines[x]) == n,
    ensures
        dedent_width(lines) == n,
    decreases lines.len(),
{
    assert(indent(lines[lines.len() - 1]) == n);
    if lines.len() > 1 {
        assert forall|x: int| 0 <= x < lines.drop_last().len() implies indent(
            #[trigger] lines.drop_last()[x],
        ) == n by {
            assert(lines.drop_last()[x] == lines[x]);
        }
        lemma_uniform_indent(lines.drop_last(), n);
    }
}

/// A heredoc with `-` whose lines but the last are all indented by the
/// same `n` characters loses exactly these on each of them, and ends in
/// a line feed.
pub proof fn lemma_heredoc_uniform(body: Seq<char>, n: int)
    requires
        split_lines(body).len() > 1,
        forall|x: int|
            0 <= x < split_lines(body).len() - 1 ==> indent(#[trigger] split_lines(body)[x]) == n,
    ensures
        heredoc_text(body, true) == join_lines(stripped(split_lines(body).drop_last(), n)) + seq!['\n'],
{
    let lines = split_lines(body).drop_last();
    assert forall|x: int| 0 <= x < lines.len() implies indent(#[trigger] lines[x]) == n by {
        assert(lines[x] == split_lines(body)[x]);
    }
    lemma_uniform_indent(lines, n);
}

fn occurs(s: &Vec<char>, j: usize, d0: usize, d1: usize) -> (r: bool)
    requires
        d0 <= d1 <= s.len(),
        j <= s.len(),
    ensures
        r == occurs_at(s@, j as int, s@.subrange(d0 as int, d1 as int)),
{
    let n = d1 - d0;
    if s.len() - j < n {
        return false;
    }
    let ghost pat = s@.subrange(d0 as int, d1 as int);
    let mut t: usize = 0;
    while t < n
        invariant
            0 <= t <= n,
            n == d1 - d0,
            d1 <= s.len(),
            j + n <= s.len(),
            pat == s@.subrange(d0 as int, d1 as int),
            forall|x: int| 0 <= x < t ==> s[j + x] == pat[x],
        decreases n - t,
    {
        if s[j + t] != s[d0 + t] {
            assert(s@.subrange(j as int, j + n)[t as int] != pat[t as int]);
            return false;
        }
        t += 1;
    }
    assert(s@.subrange(j as int, j + n) =~= pat);
    true
}

fn search_sub(s: &Vec<char>, i: usize, d0: usize, d1: usize) -> (r: Option<usize>)
    requires
        d0 <= d1 <= s.len(),
        i <= s.len(),
    ensures
        match find_sub(s@, i as int, s@.subrange(d0 as int, d1 as int)) {
            Some(k) => r == Some(k as usize) && i <= k && k + (d1 - d0) <= s.len(),
            None => r is None,
        },
{
    let n = d1 - d0;
    let ghost pat = s@.subrange(d0 as int, d1 as int);
    let mut j: usize = i;
    while s.len() - j >= n
        invariant
            i <= j <= s.len(),
            n == d1 - d0,
            d0 <= d1 <= s.len(),
            pat == s@.subrange(d0 as int, d1 as int),
            find_sub(s@, i as int, pat) == find_sub(s@, j as int, pat),
        decreases s.len() - j,
    {
        if occurs(s, j, d0, d1) {
            return Some(j);
        }
        if j == s.len() {
            return None;
        }
        j += 1;
    }
    None
}

/// The texts that `ranges` cut out of `s`.
pub open spec fn range_texts(s: Seq<char>, ranges: Seq<(usize, usize)>) -> Seq<Seq<char>> {
    Seq::new(ranges.len(), |x: int| s.subrange(ranges[x].0 as int, ranges[x].1 as int))
}

fn line_break(s: &Vec<char>, from: usize, to: usize) -> (r: Option<usize>)
    requires
        from <= to <= s.len(),
    ensures
        match find_char(s@.subrange(from as int, to as int), 0, '\n') {
            Some(j) => r == Some((from + j) as usize) && 0 <= j < to - from,
            None => r is None,
        },
{
    let ghost sub = s@.subrange(from as int, to as int);
    let mut j: usize = from;
    while j < to
        invariant
            from <= j <= to <= s.len(),
            sub == s@.subrange(from as int, to as int),
            find_char(sub, 0, '\n') == find_char(sub, j - from, '\n'),
        decreases to - j,
    {
        assert(sub[j - from] == s[j as int]);
        if s[j] == '\n' {
            return Some(j);
        }
        j += 1;
    }
    None
}

/// Cuts `s[from..to]` into its lines.
fn lines_of(s: &Vec<char>, from: usize, to: usize) -> (ranges: Vec<(usize, usize)>)
    requires
        from <= to <= s.len(),
    ensures
        range_texts(s@, ranges@) == split_lines(s@.subrange(from as int, to as int)),
        ranges.len() > 0,
        forall|x: int| 0 <= x < ranges.len() ==> (#[trigger] ranges[x]).0 <= ranges[x].1 <= to,
{
    let mut ranges: Vec<(usize, usize)> = Vec::new();
    let mut cur: usize = from;
    loop
        invariant_except_break
            split_lines(s@.subrange(from as int, to as int)) == range_texts(s@, ranges@) + split_lines(
                s@.subrange(cur as int, to as int),
            ),
        invariant
            from <= cur <= to <= s.len(),
            forall|x: int| 0 <= x < ranges.len() ==> (#[trigger] ranges[x]).0 <= ranges[x].1 <= to,
        ensures
            range_texts(s@, ranges@) == split_lines(s@.subrange(from as int, to as int)),
            ranges.len() > 0,
            forall|x: int| 0 <= x < ranges.len() ==> (#[trigger] ranges[x]).0 <= ranges[x].1 <= to,
        decreases to - cur,
    {
        let ghost sub = s@.subrange(cur as int, to as int);
        let ghost done = range_texts(s@, ranges@);
        match line_break(s, cur, to) {
            Some(j) => {
                ranges.push((cur, j));
                proof {
                    assert(sub.take(j - cur) =~= s@.subrange(cur as int, j as int));
                    assert(sub.skip(j - cur + 1) =~= s@.subrange(j + 1, to as int));
                    assert(range_texts(s@, ranges@) =~= done + seq![sub.take(j - cur)]);
                    assert(done + (seq![sub.take(j - cur)] + split_lines(sub.skip(j - cur + 1)))
                        =~= (done + seq![sub.take(j - cur)]) + split_lines(sub.skip(j - cur + 1)));
                }
                cur = j + 1;
            },
            None => {
                ranges.push((cur, to));
                proof {
                    assert(range_texts(s@, ranges@) =~= done + seq![sub]);
                }
                break ;
            },
        }
    }
    ranges
}

fn indent_of(s: &Vec<char>, from: usize, to: usize) -> (r: usize)
    requires
        from <= to <= s.len(),
    ensures
        r == indent(s@.subrange(from as int, to as int)),
        r <= to - from,
{
    let ghost line = s@.subrange(from as int, to as int);
    let mut j: usize = from;
    while j < to && CharClass::Whitespace.has(s[j])
        invariant
            from <= j <= to <= s.len(),
            line == s@.subrange(from as int, to as int),
            indent(line) == run_end(line, j - from, CharClass::Whitespace),
            j < to ==> line[j - from] == s[j as int],
        decreases to - j,
    {
        j += 1;
        assert(j < to ==> line[j - from] == s[j as int]);
    }
    j - from
}

/// The width that the first `n` of the lines lose.
fn width_of(s: &Vec<char>, ranges: &Vec<(usize, usize)>, n: usize) -> (m: usize)
    requires
        n <= ranges.len(),
        forall|x: int| 0 <= x < ranges.len() ==> (#[trigger] ranges[x]).0 <= ranges[x].1 <= s.len(),
    ensures
        m == dedent_width(range_texts(s@, ranges@).take(n as int)),
{
    let ghost lines = range_texts(s@, ranges@);
    if n == 0 {
        return 0;
    }
    let mut m: usize = indent_of(s, ranges[0].0, ranges[0].1);
    let mut x: usize = 1;
    proof {
        assert(lines.take(1)[0] == s@.subrange(ranges[0].0 as int, ranges[0].1 as int));
    }
    while x < n
        invariant
            1 <= x <= n <= ranges.len(),
            lines == range_texts(s@, ranges@),
            forall|y: int| 0 <= y < ranges.len() ==> (#[trigger] ranges[y]).0 <= ranges[y].1 <= s.len(),
            m == dedent_width(lines.take(x as int)),
        decreases n - x,
    {
        let k = indent_of(s, ranges[x].0, ranges[x].1);
        proof {
            assert(lines.take(x + 1).drop_last() =~= lines.take(x as int));
            assert(lines.take(x + 1).last() == s@.subrange(ranges[x as int].0 as int, ranges[x as int].1 as int));
        }
        if k < m {
            m = k;
        } else if m < k {
            m = 0;
        }
        x += 1;
    }
    m
}

/// Builds the value of a heredoc whose body is `s[from..to]`.
fn text_of(s: &Vec<char>, from: usize, to: usize, dedent: bool) -> (out: Vec<char>)
    requires
        from <= to <= s.len(),
    ensures
        out@ == heredoc_text(s@.subrange(from as int, to as int), dedent),
{
    let ranges = lines_of(s, from, to);
    let n = ranges.len() - 1;
    let ghost lines = range_texts(s@, ranges@).take(n as int);
    assert(lines =~= split_lines(s@.subrange(from as int, to as int)).drop_last());
    let m: usize = if dedent {
        width_of(s, &ranges, n)
    } else {
        0
    };
    let ghost cut = stripped(lines, m as int);
    let mut out: Vec<char> = Vec::new();
    let mut x: usize = 0;
    while x < n
        invariant
            x <= n < ranges.len(),
            n == ranges.len() - 1,
            lines == range_texts(s@, ranges@).take(n as int),
            cut == stripped(lines, m as int),
            dedent ==> m == dedent_width(lines),
            !dedent ==> m == 0,
            forall|y: int| 0 <= y < ranges.len() ==> (#[trigger] ranges[y]).0 <= ranges[y].1 <= to,
            to <= s.len(),
            out@ == join_lines(cut.take(x as int)),
        decreases n - x,
    {
        let (a, e) = ranges[x];
        proof {
            assert(lines[x as int] == s@.subrange(a as int, e as int));
            if dedent {
                lemma_dedent_width_bound(lines, x as int);
            }
            assert(cut.take(x + 1).drop_last() =~= cut.take(x as int));
            assert(cut.take(x + 1).last() == lines[x as int].skip(m as int));
            assert(lines[x as int].skip(m as int) =~= s@.subrange(a + m, e as int));
        }
        if x > 0 {
            out.push('\n');
        }
        let mut j: usize = a + m;
        let ghost before = out@;
        while j < e
            invariant
                a + m <= j <= e <= s.len(),
                out@ == before + s@.subrange(a + m, j as int),
            decreases e - j,
        {
            out.push(s[j]);
            j += 1;
            assert(s@.subrange(a + m, j as int) =~= s@.subrange(a + m, j - 1).push(s[j - 1]));
        }
        proof {
            if x == 0 {
                assert(cut.take(1).len() == 1);
                assert(before =~= Seq::<char>::empty());
                assert(out@ =~= cut.take(1)[0]);
            } else {
                assert(out@ =~= join_lines(cut.take(x as int)) + seq!['\n'] + cut.take(x + 1).last());
            }
        }
        x += 1;
    }
    assert(cut.take(n as int) =~= cut);
    out.push('\n');
    out
}

/// Recognizes a heredoc.
pub fn multiline(s: &Vec<char>, i: usize) -> (r: Option<(String, usize)>)
    requires
        i <= s.len(),
    ensures
        match heredoc_at(s@, i as int) {
            Some((t, e)) => r matches Some((v, j)) && v@ == t && j == e && i < e <= s.len(),
            None => r is None,
        },
{
    if !has_pair(s, i, '<', '<') {
        return None;
    }
    let dedent = has_char(s, i + 2, '-');
    let d0: usize = if dedent { i + 3 } else { i + 2 };
    let d1 = scan(s, d0, CharClass::Alphanumeric);
    if d1 == d0 {
        return None;
    }
    let b = match line_ending(s, d1) {
        Some(b) => b,
        None => { return None; },
    };
    let k = match search_sub(s, b, d0, d1) {
        Some(k) => k,
        None => { return None; },
    };
    let e = match end_of_line(s, k + (d1 - d0)) {
        Some(e) => e,
        None => { return None; },
    };
    let out = text_of(s, b, k, dedent);
    Some((string_of(&out, 0, out.len()), e))
}

} // verus!
