//! The grammar of the configuration language.

use vstd::prelude::*;
use crate::common::{boolean, boolean_at, number, number_at};
use crate::heredoc::{heredoc_at, multiline};
use crate::lexical::{
    char_at, end_of_line, end_of_line_at, has_char, has_pair, pair_at, run_end, scan, CharClass,
};
use crate::model::{
    block_value, entries_wf, folded, lemma_block_value_wf, lemma_folded_wf, Mode, ValueView,
};
use crate::strings::{find_pair, quoted, quoted_at, quoted_run, quoted_run_at, search_pair};
use crate::text::{chars_of, string_of};
use crate::types::{
    block, items_view, labels_view, lemma_array_view, pairs_view, Dict, ParseError, Value,
};

verus! {

/// The text of a line comment from `i` on, up to its line ending: the
/// position behind the text. A carriage return that no line feed follows
/// is no part of a line.
pub open spec fn not_line_ending_at(s: Seq<char>, i: int) -> Option<int> {
    let k = run_end(s, i, CharClass::LineText);
    if char_at(s, k, '\r') && !pair_at(s, k, '\r', '\n') {
        None
    } else {
        Some(k)
    }
}

/// A line comment at `i`: `//` or `#`, the text, and a line ending or
/// the end of the text. Gives the position behind it.
pub open spec fn line_comment_at(s: Seq<char>, i: int) -> Option<int> {
    let start = if pair_at(s, i, '/', '/') {
        i + 2
    } else {
        i + 1
    };
    if pair_at(s, i, '/', '/') || char_at(s, i, '#') {
        match not_line_ending_at(s, start) {
            Some(k) => end_of_line_at(s, k),
            None => end_of_line_at(s, start),
        }
    } else {
        None
    }
}

/// A block comment at `i`: `/*` through the first `*/`. Gives the
/// position behind it.
pub open spec fn block_comment_at(s: Seq<char>, i: int) -> Option<int> {
    if pair_at(s, i, '/', '*') {
        match find_pair(s, i + 2, '*', '/') {
            Some(k) => Some(k + 2),
            None => None,
        }
    } else {
        None
    }
}

/// One blank at `i`: a comma, a run of whitespace, a line comment or a
/// block comment. Gives the position behind it.
pub open spec fn blank_at(s: Seq<char>, i: int) -> Option<int> {
    if char_at(s, i, ',') {
        Some(i + 1)
    } else if run_end(s, i, CharClass::Multispace) > i {
        Some(run_end(s, i, CharClass::Multispace))
    } else if line_comment_at(s, i) is Some {
        line_comment_at(s, i)
    } else {
        block_comment_at(s, i)
    }
}

/// The position behind the blanks at `i`.
pub open spec fn blanks_end(s: Seq<char>, i: int) -> int
    decreases s.len() - i,
{
    match blank_at(s, i) {
        Some(e) => if i < e <= s.len() {
            blanks_end(s, e)
        } else {
            i
        },
        None => i,
    }
}

/// The position behind the spaces and tabs at `i`.
pub open spec fn space_end(s: Seq<char>, i: int) -> int {
    run_end(s, i, CharClass::Space)
}

/// A key at `i`: a quoted key, else the run of identifier characters
/// there, which may be empty.
pub open spec fn key_at(s: Seq<char>, i: int) -> (Seq<char>, int) {
    match quoted_run_at(s, i) {
        Some(k) => k,
        None => (s.subrange(i, run_end(s, i, CharClass::Identifier)), run_end(s, i, CharClass::Identifier)),
    }
}

/// The labels at `i`: quoted keys, each after optional spaces.
pub open spec fn labels_at(s: Seq<char>, i: int) -> (Seq<Seq<char>>, int)
    decreases s.len() - i,
{
    match quoted_run_at(s, space_end(s, i)) {
        Some((t, e)) => if i < e <= s.len() {
            let rest = labels_at(s, e);
            (seq![t] + rest.0, rest.1)
        } else {
            (Seq::empty(), i)
        },
        None => (Seq::empty(), i),
    }
}

/// A value at `i`: an object, an array, a quoted string, a heredoc, a
/// number or a boolean, the first of these that is found.
pub open spec fn value_at(mode: Mode, s: Seq<char>, i: int) -> Option<(ValueView, int)>
    decreases s.len() - i, 2int,
{
    match object_at(mode, s, i) {
        Some((entries, e)) => Some((ValueView::Object(entries), e)),
        None => match array_at(mode, s, i) {
            Some((items, e)) => Some((ValueView::Array(items), e)),
            None => match quoted_at(s, i) {
                Some((t, e)) => Some((ValueView::String(t), e)),
                None => match heredoc_at(s, i) {
                    Some((t, e)) => Some((ValueView::String(t), e)),
                    None => match number_at(s, i) {
                        Some((n, e)) => Some((ValueView::Number(n), e)),
                        None => match boolean_at(s, i) {
                            Some((b, e)) => Some((ValueView::Bool(b), e)),
                            None => None,
                        },
                    },
                },
            },
        },
    }
}

/// An object at `i`: blanks, `{`, entries, blanks, `}`, blanks. Gives
/// the object that the entries fold into.
pub open spec fn object_at(mode: Mode, s: Seq<char>, i: int) -> Option<(Seq<(Seq<char>, ValueView)>, int)>
    decreases s.len() - i, 1int,
{
    let a = blanks_end(s, i);
    if i <= a && char_at(s, a, '{') {
        let inner = entries_at(mode, s, a + 1);
        let c = blanks_end(s, inner.1);
        if char_at(s, c, '}') {
            Some((folded(mode, inner.0), blanks_end(s, c + 1)))
        } else {
            None
        }
    } else {
        None
    }
}

/// An array at `i`: `[`, items, blanks, `]`.
pub open spec fn array_at(mode: Mode, s: Seq<char>, i: int) -> Option<(Seq<ValueView>, int)>
    decreases s.len() - i, 1int,
{
    if char_at(s, i, '[') {
        let inner = items_at(mode, s, i + 1);
        let c = blanks_end(s, inner.1);
        if char_at(s, c, ']') {
            Some((inner.0, c + 1))
        } else {
            None
        }
    } else {
        None
    }
}

/// The items of an array from `i` on: values, each between blanks.
pub open spec fn items_at(mode: Mode, s: Seq<char>, i: int) -> (Seq<ValueView>, int)
    decreases s.len() - i, 3int,
{
    let a = blanks_end(s, i);
    if 0 <= i <= a <= s.len() {
        match value_at(mode, s, a) {
            Some((v, e)) => {
                let b = blanks_end(s, e);
                if i < b <= s.len() {
                    let rest = items_at(mode, s, b);
                    (seq![v] + rest.0, rest.1)
                } else {
                    (Seq::empty(), i)
                }
            },
            None => (Seq::empty(), i),
        }
    } else {
        (Seq::empty(), i)
    }
}

/// A block at `i`: labels and an object. Gives the block's value.
pub open spec fn nested_at(mode: Mode, s: Seq<char>, i: int) -> Option<(ValueView, int)>
    decreases s.len() - i, 3int,
{
    let head = labels_at(s, i);
    if 0 <= i <= head.1 <= s.len() {
        match object_at(mode, s, head.1) {
            Some((entries, e)) => Some((block_value(mode, head.0, ValueView::Object(entries)), e)),
            None => None,
        }
    } else {
        None
    }
}

/// An entry at `i`, with spaces and tabs allowed before each part: a
/// key, `=` and a block; else a key, `=` and a value; else a key and a
/// block.
pub open spec fn entry_at(mode: Mode, s: Seq<char>, i: int) -> Option<((Seq<char>, ValueView), int)>
    decreases s.len() - i, 4int,
{
    let k = key_at(s, space_end(s, i));
    let eq = space_end(s, k.1);
    let v = space_end(s, eq + 1);
    if 0 <= i <= eq <= s.len() {
        let assigned = if char_at(s, eq, '=') && eq < v <= s.len() {
            match nested_at(mode, s, v) {
                Some(r) => Some(r),
                None => value_at(mode, s, v),
            }
        } else {
            None
        };
        match assigned {
            Some((x, e)) => Some(((k.0, x), e)),
            None => match nested_at(mode, s, eq) {
                Some((x, e)) => Some(((k.0, x), e)),
                None => None,
            },
        }
    } else {
        None
    }
}

/// The entries from `i` on: entries, each between blanks.
pub open spec fn entries_at(mode: Mode, s: Seq<char>, i: int) -> (Seq<(Seq<char>, ValueView)>, int)
    decreases s.len() - i, 5int,
{
    let a = blanks_end(s, i);
    if 0 <= i <= a <= s.len() {
        match entry_at(mode, s, a) {
            Some((p, e)) => {
                let b = blanks_end(s, e);
                if i < b <= s.len() {
                    let rest = entries_at(mode, s, b);
                    (seq![p] + rest.0, rest.1)
                } else {
                    (Seq::empty(), i)
                }
            },
            None => (Seq::empty(), i),
        }
    } else {
        (Seq::empty(), i)
    }
}

/// The object that the whole text `s` writes: its entries, folded; none
/// where anything but blanks follows the last entry.
pub open spec fn document(mode: Mode, s: Seq<char>) -> Option<Seq<(Seq<char>, ValueView)>> {
    let all = entries_at(mode, s, 0);
    if blanks_end(s, all.1) == s.len() {
        Some(folded(mode, all.0))
    } else {
        None
    }
}

fn line_comment(s: &Vec<char>, i: usize) -> (r: Option<usize>)
    requires
        i <= s.len(),
    ensures
        match line_comment_at(s@, i as int) {
            Some(e) => r == Some(e as usize) && i < e <= s.len(),
            None => r is None,
        },
{
    let start: usize = if has_pair(s, i, '/', '/') {
        i + 2
    } else if has_char(s, i, '#') {
        i + 1
    } else {
        return None;
    };
    let k = scan(s, start, CharClass::LineText);
    if has_char(s, k, '\r') && !has_pair(s, k, '\r', '\n') {
        end_of_line(s, start)
    } else {
        end_of_line(s, k)
    }
}

fn block_comment(s: &Vec<char>, i: usize) -> (r: Option<usize>)
    requires
        i <= s.len(),
    ensures
        match block_comment_at(s@, i as int) {
            Some(e) => r == Some(e as usize) && i < e <= s.len(),
            None => r is None,
        },
{
    if !has_pair(s, i, '/', '*') {
        return None;
    }
    match search_pair(s, i + 2, '*', '/') {
        Some(k) => Some(k + 2),
        None => None,
    }
}

fn blank(s: &Vec<char>, i: usize) -> (r: Option<usize>)
    requires
        i <= s.len(),
    ensures
        match blank_at(s@, i as int) {
            Some(e) => r == Some(e as usize) && i < e <= s.len(),
            None => r is None,
        },
{
    if has_char(s, i, ',') {
        return Some(i + 1);
    }
    let e = scan(s, i, CharClass::Multispace);
    if e > i {
        return Some(e);
    }
    match line_comment(s, i) {
        Some(e) => Some(e),
        None => block_comment(s, i),
    }
}

/// Skips the blanks at `i`.
pub fn blanks(s: &Vec<char>, i: usize) -> (e: usize)
    requires
        i <= s.len(),
    ensures
        e == blanks_end(s@, i as int),
        i <= e <= s.len(),
{
    let mut j: usize = i;
    loop
        invariant_except_break
            blanks_end(s@, i as int) == blanks_end(s@, j as int),
        invariant
            i <= j <= s.len(),
        ensures
            j == blanks_end(s@, i as int),
        decreases s.len() - j,
    {
        match blank(s, j) {
            Some(e) => {
                j = e;
            },
            None => {
                break ;
            },
        }
    }
    j
}

fn space(s: &Vec<char>, i: usize) -> (e: usize)
    requires
        i <= s.len(),
    ensures
        e == space_end(s@, i as int),
        i <= e <= s.len(),
{
    scan(s, i, CharClass::Space)
}

fn key(s: &Vec<char>, i: usize) -> (r: (String, usize))
    requires
        i <= s.len(),
    ensures
        r.0@ == key_at(s@, i as int).0,
        r.1 == key_at(s@, i as int).1,
        i <= r.1 <= s.len(),
{
    match quoted_run(s, i) {
        Some(k) => k,
        None => {
            let e = scan(s, i, CharClass::Identifier);
            (string_of(s, i, e), e)
        },
    }
}

fn labels(s: &Vec<char>, i: usize) -> (r: (Vec<String>, usize))
    requires
        i <= s.len(),
    ensures
        labels_view(r.0@) == labels_at(s@, i as int).0,
        r.1 == labels_at(s@, i as int).1,
        i <= r.1 <= s.len(),
{
    let mut out: Vec<String> = Vec::new();
    let mut j: usize = i;
    loop
        invariant_except_break
            labels_at(s@, i as int) == (labels_view(out@) + labels_at(s@, j as int).0, labels_at(
                s@,
                j as int,
            ).1),
        invariant
            i <= j <= s.len(),
        ensures
            labels_at(s@, i as int) == (labels_view(out@), j as int),
        decreases s.len() - j,
    {
        let a = space(s, j);
        match quoted_run(s, a) {
            Some((t, e)) => {
                let ghost before = labels_view(out@);
                let ghost rest = labels_at(s@, e as int);
                out.push(t);
                proof {
                    assert(labels_view(out@) =~= before.push(t@));
                    assert(before + (seq![t@] + rest.0) =~= before.push(t@) + rest.0);
                }
                j = e;
            },
            None => {
                assert(labels_view(out@) + Seq::<Seq<char>>::empty() =~= labels_view(out@));
                break ;
            },
        }
    }
    (out, j)
}

/// The object that `pairs` fold into.
pub fn fold(mode: Mode, pairs: Vec<(String, Value)>) -> (d: Dict)
    ensures
        d@ == folded(mode, pairs_view(pairs@)),
        (forall|x: int| 0 <= x < pairs.len() ==> (#[trigger] pairs_view(pairs@)[x]).1.wf()) ==> entries_wf(
            d@,
        ),
{
    proof {
        if forall|x: int| 0 <= x < pairs.len() ==> (#[trigger] pairs_view(pairs@)[x]).1.wf() {
            lemma_folded_wf(mode, pairs_view(pairs@));
        }
    }
    let ghost all = pairs_view(pairs@);
    let mut pairs = pairs;
    let mut d = Dict::new();
    assert(all.skip(all.len() as int) =~= Seq::empty());
    while pairs.len() > 0
        invariant
            pairs.len() <= all.len(),
            pairs_view(pairs@) == all.take(pairs.len() as int),
            d@ == folded(mode, all.skip(pairs.len() as int)),
        decreases pairs.len(),
    {
        let ghost n = pairs.len() as int;
        let (k, v) = pairs.pop().unwrap();
        proof {
            assert((k@, v@) == all.take(n)[n - 1]);
            assert(pairs_view(pairs@) =~= all.take(n - 1));
            assert(all.skip(n - 1).drop_first() =~= all.skip(n));
            assert(all.skip(n - 1)[0] == (k@, v@));
        }
        d.place(k, v, mode);
    }
    assert(all.skip(0) =~= all);
    d
}

/// Recognizes a value.
pub fn value(mode: Mode, s: &Vec<char>, i: usize) -> (r: Option<(Value, usize)>)
    requires
        i <= s.len(),
    ensures
        match value_at(mode, s@, i as int) {
            Some((v, e)) => r matches Some((x, j)) && x@ == v && j == e && i <= e <= s.len() && v.wf(),
            None => r is None,
        },
    decreases s.len() - i, 2int,
{
    if let Some((d, e)) = object(mode, s, i) {
        return Some((Value::Object(d), e));
    }
    if let Some((items, e)) = array(mode, s, i) {
        proof {
            lemma_array_view(items);
        }
        return Some((Value::Array(items), e));
    }
    if let Some((t, e)) = quoted(s, i) {
        return Some((Value::String(t), e));
    }
    if let Some((t, e)) = multiline(s, i) {
        return Some((Value::String(t), e));
    }
    if let Some((n, e)) = number(s, i) {
        return Some((Value::Number(n), e));
    }
    if let Some((b, e)) = boolean(s, i) {
        return Some((Value::Bool(b), e));
    }
    None
}

fn object(mode: Mode, s: &Vec<char>, i: usize) -> (r: Option<(Dict, usize)>)
    requires
        i <= s.len(),
    ensures
        match object_at(mode, s@, i as int) {
            Some((v, e)) => r matches Some((d, j)) && d@ == v && j == e && i < e <= s.len()
                && entries_wf(v),
            None => r is None,
        },
    decreases s.len() - i, 1int,
{
    let a = blanks(s, i);
    if !has_char(s, a, '{') {
        return None;
    }
    let (pairs, b) = entries(mode, s, a + 1);
    let c = blanks(s, b);
    if !has_char(s, c, '}') {
        return None;
    }
    proof {
        lemma_folded_wf(mode, pairs_view(pairs@));
    }
    Some((fold(mode, pairs), blanks(s, c + 1)))
}

fn array(mode: Mode, s: &Vec<char>, i: usize) -> (r: Option<(Vec<Value>, usize)>)
    requires
        i <= s.len(),
    ensures
        match array_at(mode, s@, i as int) {
            Some((v, e)) => r matches Some((x, j)) && items_view(x@) == v && j == e && i < e <= s.len()
                && ValueView::Array(v).wf(),
            None => r is None,
        },
    decreases s.len() - i, 1int,
{
    if !has_char(s, i, '[') {
        return None;
    }
    let (found, b) = items(mode, s, i + 1);
    let c = blanks(s, b);
    if !has_char(s, c, ']') {
        return None;
    }
    Some((found, c + 1))
}

fn items(mode: Mode, s: &Vec<char>, i: usize) -> (r: (Vec<Value>, usize))
    requires
        i <= s.len(),
    ensures
        items_view(r.0@) == items_at(mode, s@, i as int).0,
        r.1 == items_at(mode, s@, i as int).1,
        i <= r.1 <= s.len(),
        ValueView::Array(items_view(r.0@)).wf(),
    decreases s.len() - i, 3int,
{
    let mut out: Vec<Value> = Vec::new();
    let mut j: usize = i;
    loop
        invariant_except_break
            items_at(mode, s@, i as int) == (items_view(out@) + items_at(mode, s@, j as int).0, items_at(
                mode,
                s@,
                j as int,
            ).1),
        invariant
            i <= j <= s.len(),
            forall|x: int| 0 <= x < out.len() ==> (#[trigger] items_view(out@)[x]).wf(),
        ensures
            items_at(mode, s@, i as int) == (items_view(out@), j as int),
        decreases s.len() - j,
    {
        let a = blanks(s, j);
        match value(mode, s, a) {
            Some((v, e)) => {
                let b = blanks(s, e);
                if b == j {
                    assert(items_view(out@) + Seq::<ValueView>::empty() =~= items_view(out@));
                    break ;
                }
                let ghost before = items_view(out@);
                let ghost rest = items_at(mode, s@, b as int);
                out.push(v);
                proof {
                    assert(items_view(out@) =~= before.push(v@));
                    assert(before + (seq![v@] + rest.0) =~= before.push(v@) + rest.0);
                    assert forall|x: int| 0 <= x < out.len() implies (#[trigger] items_view(
                        out@,
                    )[x]).wf() by {
                        if x < before.len() {
                            assert(items_view(out@)[x] == before[x]);
                        }
                    }
                }
                j = b;
            },
            None => {
                assert(items_view(out@) + Seq::<ValueView>::empty() =~= items_view(out@));
                break ;
            },
        }
    }
    (out, j)
}

fn nested(mode: Mode, s: &Vec<char>, i: usize) -> (r: Option<(Value, usize)>)
    requires
        i <= s.len(),
    ensures
        match nested_at(mode, s@, i as int) {
            Some((v, e)) => r matches Some((x, j)) && x@ == v && j == e && i < e <= s.len() && v.wf(),
            None => r is None,
        },
    decreases s.len() - i, 3int,
{
    let (names, a) = labels(s, i);
    match object(mode, s, a) {
        Some((d, e)) => {
            proof {
                lemma_block_value_wf(mode, labels_view(names@), ValueView::Object(d@));
            }
            Some((block(mode, names, Value::Object(d)), e))
        },
        None => None,
    }
}

fn entry(mode: Mode, s: &Vec<char>, i: usize) -> (r: Option<((String, Value), usize)>)
    requires
        i <= s.len(),
    ensures
        match entry_at(mode, s@, i as int) {
            Some((p, e)) => r matches Some((x, j)) && x.0@ == p.0 && x.1@ == p.1 && j == e && i < e
                <= s.len() && p.1.wf(),
            None => r is None,
        },
    decreases s.len() - i, 4int,
{
    let start = space(s, i);
    let (k, after_key) = key(s, start);
    let eq = space(s, after_key);
    if has_char(s, eq, '=') {
        let v = space(s, eq + 1);
        if let Some((x, e)) = nested(mode, s, v) {
            return Some(((k, x), e));
        }
        if let Some((x, e)) = value(mode, s, v) {
            return Some(((k, x), e));
        }
    }
    match nested(mode, s, eq) {
        Some((x, e)) => Some(((k, x), e)),
        None => None,
    }
}

fn entries(mode: Mode, s: &Vec<char>, i: usize) -> (r: (Vec<(String, Value)>, usize))
    requires
        i <= s.len(),
    ensures
        pairs_view(r.0@) == entries_at(mode, s@, i as int).0,
        r.1 == entries_at(mode, s@, i as int).1,
        i <= r.1 <= s.len(),
        forall|x: int| 0 <= x < r.0.len() ==> (#[trigger] pairs_view(r.0@)[x]).1.wf(),
    decreases s.len() - i, 5int,
{
    let mut out: Vec<(String, Value)> = Vec::new();
    let mut j: usize = i;
    loop
        invariant_except_break
            entries_at(mode, s@, i as int) == (
                pairs_view(out@) + entries_at(mode, s@, j as int).0,
                entries_at(mode, s@, j as int).1,
            ),
        invariant
            i <= j <= s.len(),
            forall|x: int| 0 <= x < out.len() ==> (#[trigger] pairs_view(out@)[x]).1.wf(),
        ensures
            entries_at(mode, s@, i as int) == (pairs_view(out@), j as int),
        decreases s.len() - j,
    {
        let a = blanks(s, j);
        match entry(mode, s, a) {
            Some((p, e)) => {
                let b = blanks(s, e);
                let ghost before = pairs_view(out@);
                let ghost rest = entries_at(mode, s@, b as int);
                let ghost pv = (p.0@, p.1@);
                out.push(p);
                proof {
                    assert(pairs_view(out@) =~= before.push(pv));
                    assert(before + (seq![pv] + rest.0) =~= before.push(pv) + rest.0);
                    assert forall|x: int| 0 <= x < out.len() implies (#[trigger] pairs_view(
                        out@,
                    )[x]).1.wf() by {
                        if x < before.len() {
                            assert(pairs_view(out@)[x] == before[x]);
                        }
                    }
                }
                j = b;
            },
            None => {
                assert(pairs_view(out@) + Seq::<(Seq<char>, ValueView)>::empty() =~= pairs_view(out@));
                break ;
            },
        }
    }
    (out, j)
}

/// Parses the text `config` under the rules of `mode`.
pub fn parse_hcl_with(config: &str, mode: Mode) -> (r: Result<Value, ParseError>)
    ensures
        match document(mode, config@) {
            Some(entries) => r matches Ok(v) && v@ == ValueView::Object(entries) && v@.wf(),
            None => r == Err::<Value, ParseError>(ParseError::Malformed),
        },
{
    let s = chars_of(config);
    let (pairs, e) = entries(mode, &s, 0);
    if blanks(&s, e) != s.len() {
        return Err(ParseError::Malformed);
    }
    proof {
        lemma_folded_wf(mode, pairs_view(pairs@));
    }
    Ok(Value::Object(fold(mode, pairs)))
}

/// Parses the text `config`; objects under one key merge.
pub fn parse_hcl(config: &str) -> (r: Result<Value, ParseError>)
    ensures
        match document(Mode::Merge, config@) {
            Some(entries) => r matches Ok(v) && v@ == ValueView::Object(entries) && v@.wf(),
            None => r == Err::<Value, ParseError>(ParseError::Malformed),
        },
{
    parse_hcl_with(config, Mode::Merge)
}

} // verus!
