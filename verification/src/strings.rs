//! Quoted strings: escape sequences and template spans.

use vstd::prelude::*;
use vstd::utf8::encode_utf8;
use crate::lexical::{char_at, has_char, has_pair, pair_at};
use crate::text::string_of;

verus! {

/// The character that a backslash and `c` stand for, where they stand
/// for one.
pub open spec fn unescaped(c: char) -> Option<char> {
    if c == '\\' {
        Some('\\')
    } else if c == '"' {
        Some('"')
    } else if c == 'n' {
        Some('\n')
    } else {
        None
    }
}

/// `head`, then the text of `tail`.
pub open spec fn after(head: Seq<char>, tail: Option<(Seq<char>, int)>) -> Option<(Seq<char>, int)> {
    match tail {
        Some((t, e)) => Some((head + t, e)),
        None => None,
    }
}

/// A run of literal text at `i`, with its escape sequences decoded. The
/// run ends before a double quote or a line feed, or at the end of the
/// text. A backslash that is the last character, or that no known escape
/// follows, makes the run fail. Gives the decoded text and the position
/// behind the run.
pub open spec fn escaped_at(s: Seq<char>, i: int) -> Option<(Seq<char>, int)>
    decreases s.len() - i,
{
    if i < 0 || i >= s.len() {
        Some((Seq::empty(), i))
    } else if s[i] == '\\' {
        if i + 1 < s.len() && unescaped(s[i + 1]) is Some {
            after(seq![unescaped(s[i + 1])->0], escaped_at(s, i + 2))
        } else {
            None
        }
    } else if s[i] == '"' || s[i] == '\n' {
        Some((Seq::empty(), i))
    } else {
        after(seq![s[i]], escaped_at(s, i + 1))
    }
}

/// The first position from `i` on at which the character `a` stands.
pub open spec fn find_char(s: Seq<char>, i: int, a: char) -> Option<int>
    decreases s.len() - i,
{
    if i < 0 || i >= s.len() {
        None
    } else if s[i] == a {
        Some(i)
    } else {
        find_char(s, i + 1, a)
    }
}

/// The first position from `i` on at which the characters `a`, `b` stand.
pub open spec fn find_pair(s: Seq<char>, i: int, a: char, b: char) -> Option<int>
    decreases s.len() - i,
{
    if i < 0 || i + 1 >= s.len() {
        None
    } else if s[i] == a && s[i + 1] == b {
        Some(i)
    } else {
        find_pair(s, i + 1, a, b)
    }
}

/// Finds the first `a` from `i` on.
pub fn search_char(s: &Vec<char>, i: usize, a: char) -> (r: Option<usize>)
    requires
        i <= s.len(),
    ensures
        match find_char(s@, i as int, a) {
            Some(j) => r == Some(j as usize) && i <= j < s.len(),
            None => r is None,
        },
{
    let mut j: usize = i;
    while j < s.len()
        invariant
            i <= j <= s.len(),
            find_char(s@, i as int, a) == find_char(s@, j as int, a),
        decreases s.len() - j,
    {
        if s[j] == a {
            return Some(j);
        }
        j += 1;
    }
    None
}

/// Finds the first `a`, `b` from `i` on.
pub fn search_pair(s: &Vec<char>, i: usize, a: char, b: char) -> (r: Option<usize>)
    requires
        i <= s.len(),
    ensures
        match find_pair(s@, i as int, a, b) {
            Some(j) => r == Some(j as usize) && i <= j && j + 1 < s.len(),
            None => r is None,
        },
{
    let mut j: usize = i;
    while j < s.len() && s.len() - j >= 2
        invariant
            i <= j <= s.len(),
            find_pair(s@, i as int, a, b) == find_pair(s@, j as int, a, b),
        decreases s.len() - j,
    {
        if s[j] == a && s[j + 1] == b {
            return Some(j);
        }
        j += 1;
    }
    None
}

/// The smaller of the two.
pub open spec fn limited(min: int, max: int) -> int {
    if max < min {
        max
    } else {
        min
    }
}

/// The smaller of `min` and `max`.
pub fn take_limited(min: usize, max: usize) -> (r: usize)
    ensures
        r == limited(min as int, max as int),
{
    if max < min {
        return max;
    }
    return min;
}

/// The number of bytes of `i` as UTF-8.
pub fn slen(i: String) -> (n: usize)
    ensures
        n == encode_utf8(i@).len(),
{
    i.as_str().as_bytes().len()
}

proof fn lemma_after_push(head: Seq<char>, c: char, tail: Option<(Seq<char>, int)>)
    ensures
        after(head, after(seq![c], tail)) == after(head.push(c), tail),
{
    if let Some((t, e)) = tail {
        assert(head + (seq![c] + t) =~= head.push(c) + t);
    }
}

/// Decodes the run of literal text at `i` of the first `end` characters.
pub fn escaped(s: &Vec<char>, i: usize, end: usize) -> (r: Option<(Vec<char>, usize)>)
    requires
        i <= end <= s.len(),
    ensures
        match escaped_at(s@.take(end as int), i as int) {
            Some((t, e)) => r matches Some((v, j)) && v@ == t && j == e && i <= e <= end,
            None => r is None,
        },
{
    let ghost t = s@.take(end as int);
    let mut out: Vec<char> = Vec::new();
    let mut j: usize = i;
    while j < end
        invariant
            i <= j <= end <= s.len(),
            t == s@.take(end as int),
            escaped_at(t, i as int) == after(out@, escaped_at(t, j as int)),
        decreases end - j,
    {
        let c = s[j];
        assert(t[j as int] == c);
        if c == '\\' {
            if end - j < 2 {
                return None;
            }
            let d = s[j + 1];
            assert(t[j + 1] == d);
            let u = if d == '\\' {
                '\\'
            } else if d == '"' {
                '"'
            } else if d == 'n' {
                '\n'
            } else {
                return None;
            };
            proof {
                lemma_after_push(out@, u, escaped_at(t, j + 2));
            }
            out.push(u);
            j += 2;
        } else if c == '"' || c == '\n' {
            assert(out@ + Seq::<char>::empty() =~= out@);
            return Some((out, j));
        } else {
            proof {
                lemma_after_push(out@, c, escaped_at(t, j + 1));
            }
            out.push(c);
            j += 1;
        }
    }
    assert(out@ + Seq::<char>::empty() =~= out@);
    Some((out, j))
}

/// A template span at `i`: `${` through the first `}`, taken as it
/// stands, delimiters included.
pub open spec fn template_at(s: Seq<char>, i: int) -> Option<(Seq<char>, int)> {
    if pair_at(s, i, '$', '{') {
        match find_char(s, i + 2, '}') {
            Some(j) => Some((s.subrange(i, j + 1), j + 1)),
            None => None,
        }
    } else {
        None
    }
}

/// A bounded run of literal text at `i`: of the run at `i`, as many
/// characters as its decoded text has, but none from the next `${` on;
/// these are decoded by themselves. Fails where the run fails,
/// where no `${` follows, and where the characters taken do not decode.
pub open spec fn bounded_at(s: Seq<char>, i: int) -> Option<(Seq<char>, int)> {
    match escaped_at(s, i) {
        None => None,
        Some((run, _)) => match find_pair(s, i, '$', '{') {
            None => None,
            Some(k) => {
                let n = limited(k - i, run.len() as int);
                match escaped_at(s.take(i + n), i) {
                    Some((t, _)) => Some((t, i + n)),
                    None => None,
                }
            },
        },
    }
}

/// One piece of a quoted string at `i`: a template span, else a bounded
/// run, else a run.
pub open spec fn piece_at(s: Seq<char>, i: int) -> Option<(Seq<char>, int)> {
    if template_at(s, i) is Some {
        template_at(s, i)
    } else if bounded_at(s, i) is Some {
        bounded_at(s, i)
    } else {
        escaped_at(s, i)
    }
}

/// The text between the quotes: pieces, as long as one is found that is
/// not empty. Gives the text and the position behind the last piece.
pub open spec fn body_at(s: Seq<char>, i: int) -> (Seq<char>, int)
    decreases s.len() - i,
{
    match piece_at(s, i) {
        Some((t, e)) => if i < e <= s.len() {
            let rest = body_at(s, e);
            (t + rest.0, rest.1)
        } else {
            (Seq::empty(), i)
        },
        None => (Seq::empty(), i),
    }
}

/// A quoted string at `i`: a double quote, the text, a double quote.
pub open spec fn quoted_at(s: Seq<char>, i: int) -> Option<(Seq<char>, int)> {
    if char_at(s, i, '"') && char_at(s, body_at(s, i + 1).1, '"') {
        Some((body_at(s, i + 1).0, body_at(s, i + 1).1 + 1))
    } else {
        None
    }
}

fn template(s: &Vec<char>, i: usize) -> (r: Option<usize>)
    requires
        i <= s.len(),
    ensures
        match template_at(s@, i as int) {
            Some((t, e)) => r == Some(e as usize) && i < e <= s.len() && t == s@.subrange(
                i as int,
                e,
            ),
            None => r is None,
        },
{
    if !has_pair(s, i, '$', '{') {
        return None;
    }
    match search_char(s, i + 2, '}') {
        Some(j) => Some(j + 1),
        None => None,
    }
}

fn bounded(s: &Vec<char>, i: usize) -> (r: Option<(Vec<char>, usize)>)
    requires
        i <= s.len(),
    ensures
        match bounded_at(s@, i as int) {
            Some((t, e)) => r matches Some((v, j)) && v@ == t && j == e && i <= e <= s.len(),
            None => r is None,
        },
{
    assert(s@.take(s.len() as int) =~= s@);
    let run = match escaped(s, i, s.len()) {
        Some((run, _)) => run,
        None => { return None; },
    };
    let k = match search_pair(s, i, '$', '{') {
        Some(k) => k,
        None => { return None; },
    };
    let n = take_limited(k - i, run.len());
    match escaped(s, i, i + n) {
        Some((t, _)) => Some((t, i + n)),
        None => None,
    }
}

/// Appends `piece` to `out`.
fn append(out: &mut Vec<char>, piece: &Vec<char>, from: usize, to: usize)
    requires
        from <= to <= piece.len(),
    ensures
        final(out)@ == old(out)@ + piece@.subrange(from as int, to as int),
{
    let mut j: usize = from;
    while j < to
        invariant
            from <= j <= to <= piece.len(),
            out@ == old(out)@ + piece@.subrange(from as int, j as int),
        decreases to - j,
    {
        out.push(piece[j]);
        j += 1;
        assert(piece@.subrange(from as int, j as int) =~= piece@.subrange(from as int, j - 1).push(
            piece[j - 1],
        ));
    }
    assert(out@ =~= old(out)@ + piece@.subrange(from as int, to as int));
}

/// Recognizes a quoted string.
pub fn quoted(s: &Vec<char>, i: usize) -> (r: Option<(String, usize)>)
    requires
        i <= s.len(),
    ensures
        match quoted_at(s@, i as int) {
            Some((t, e)) => r matches Some((v, j)) && v@ == t && j == e && i < e <= s.len(),
            None => r is None,
        },
{
    if !has_char(s, i, '"') {
        return None;
    }
    let mut out: Vec<char> = Vec::new();
    let mut j: usize = i + 1;
    loop
        invariant
            i < j <= s.len(),
            body_at(s@, i + 1) == (out@ + body_at(s@, j as int).0, body_at(s@, j as int).1),
        ensures
            i < j <= s.len(),
            body_at(s@, i + 1) == (out@, j as int),
        decreases s.len() - j,
    {
        let ghost before = out@;
        let kept = out.len();
        let e = match template(s, j) {
            Some(e) => {
                append(&mut out, s, j, e);
                e
            },
            None => match bounded(s, j) {
                Some((t, e)) => {
                    append(&mut out, &t, 0, t.len());
                    assert(t@.subrange(0, t.len() as int) =~= t@);
                    e
                },
                None => {
                    assert(s@.take(s.len() as int) =~= s@);
                    match escaped(s, j, s.len()) {
                        Some((t, e)) => {
                            append(&mut out, &t, 0, t.len());
                            assert(t@.subrange(0, t.len() as int) =~= t@);
                            e
                        },
                        None => {
                            assert(out@ + Seq::<char>::empty() =~= out@);
                            break ;
                        },
                    }
                },
            },
        };
        if e == j {
            out.truncate(kept);
            assert(out@ =~= before);
            assert(before + Seq::<char>::empty() =~= before);
            break ;
        }
        proof {
            let piece = piece_at(s@, j as int)->0;
            assert(out@ == before + piece.0);
            let rest = body_at(s@, e as int);
            assert(before + (piece.0 + rest.0) =~= out@ + rest.0);
        }
        j = e;
    }
    if has_char(s, j, '"') {
        Some((string_of(&out, 0, out.len()), j + 1))
    } else {
        None
    }
}

/// A quoted run at `i`: a double quote, a run of literal text, a double
/// quote.
pub open spec fn quoted_run_at(s: Seq<char>, i: int) -> Option<(Seq<char>, int)> {
    if char_at(s, i, '"') {
        match escaped_at(s, i + 1) {
            Some((t, e)) => if char_at(s, e, '"') {
                Some((t, e + 1))
            } else {
                None
            },
            None => None,
        }
    } else {
        None
    }
}

/// Recognizes a quoted run.
pub fn quoted_run(s: &Vec<char>, i: usize) -> (r: Option<(String, usize)>)
    requires
        i <= s.len(),
    ensures
        match quoted_run_at(s@, i as int) {
            Some((t, e)) => r matches Some((k, j)) && k@ == t && j == e && i < e <= s.len(),
            None => r is None,
        },
{
    if !has_char(s, i, '"') {
        return None;
    }
    assert(s@.take(s.len() as int) =~= s@);
    match escaped(s, i + 1, s.len()) {
        Some((t, e)) => {
            if has_char(s, e, '"') {
                assert(t@.subrange(0, t.len() as int) =~= t@);
                Some((string_of(&t, 0, t.len()), e + 1))
            } else {
                None
            }
        },
        None => None,
    }
}

} // verus!
