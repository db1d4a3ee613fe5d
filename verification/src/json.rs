//! A strict parser for the conventional object notation: objects, arrays,
//! strings, numbers and booleans.

use vstd::prelude::*;
use vstd::utf8::{decode_utf8, valid_utf8};
use crate::common::{boolean, boolean_at, decimal, decimal_at, lemma_decimal_literal};
use crate::lexical::{char_at, has_char, run_end, scan, CharClass};
use crate::model::{entries_wf, lemma_put_wf, put, NumberView, ValueView};
use crate::strings::{quoted_run, quoted_run_at};
use crate::text::{chars_of, string_of};
use crate::types::{items_view, lemma_array_view, Dict, Number, ParseError, Value};

verus! {

/// What lenient UTF-8 decoding makes of `bytes`.
pub uninterp spec fn utf8_lossy(bytes: Seq<u8>) -> Seq<char>;

/// `String::from_utf8_lossy` decodes bytes as UTF-8 and puts U+FFFD in
/// place of what is malformed; well-formed UTF-8 is decoded as it is.
#[verifier::external_body]
fn from_utf8_lossy(bytes: &Vec<u8>) -> (text: String)
    ensures
        text@ == utf8_lossy(bytes@),
        valid_utf8(bytes@) ==> text@ == decode_utf8(bytes@),
{
    String::from_utf8_lossy(bytes).into_owned()
}

/// The text that the bytes `i` hold as UTF-8, with U+FFFD in place of
/// what is malformed.
pub fn to_s(i: Vec<u8>) -> (text: String)
    ensures
        text@ == utf8_lossy(i@),
        valid_utf8(i@) ==> text@ == decode_utf8(i@),
{
    from_utf8_lossy(&i)
}

/// The position behind the whitespace at `i`.
pub open spec fn ws_end(s: Seq<char>, i: int) -> int {
    run_end(s, i, CharClass::Multispace)
}

/// The object that `pairs` make, a later entry replacing an earlier one
/// with the same key.
pub open spec fn put_all(pairs: Seq<(Seq<char>, ValueView)>) -> Seq<(Seq<char>, ValueView)>
    decreases pairs.len(),
{
    if pairs.len() == 0 {
        Seq::empty()
    } else {
        put(put_all(pairs.drop_last()), pairs.last().0, pairs.last().1)
    }
}

/// A value at `i`, between whitespace: an object, an array, a string, a
/// number or a boolean.
pub open spec fn json_value_at(s: Seq<char>, i: int) -> Option<(ValueView, int)>
    decreases s.len() - i, 2int,
{
    let a = ws_end(s, i);
    if 0 <= i <= a <= s.len() {
        let found = match json_object_at(s, a) {
            Some((entries, e)) => Some((ValueView::Object(entries), e)),
            None => match json_array_at(s, a) {
                Some((items, e)) => Some((ValueView::Array(items), e)),
                None => match quoted_run_at(s, a) {
                    Some((t, e)) => Some((ValueView::String(t), e)),
                    None => match decimal_at(s, a) {
                        Some(e) => Some((ValueView::Number(NumberView::Decimal(s.subrange(a, e))), e)),
                        None => match boolean_at(s, a) {
                            Some((b, e)) => Some((ValueView::Bool(b), e)),
                            None => None,
                        },
                    },
                },
            },
        };
        match found {
            Some((v, e)) => Some((v, ws_end(s, e))),
            None => None,
        }
    } else {
        None
    }
}

/// An object at `i`: `{`, entries with commas between them, `}`.
pub open spec fn json_object_at(s: Seq<char>, i: int) -> Option<(Seq<(Seq<char>, ValueView)>, int)>
    decreases s.len() - i, 1int,
{
    if char_at(s, i, '{') {
        let inner = json_pairs_at(s, i + 1, true);
        let c = ws_end(s, inner.1);
        if char_at(s, c, '}') {
            Some((put_all(inner.0), c + 1))
        } else {
            None
        }
    } else {
        None
    }
}

/// An array at `i`: `[`, values with commas between them, `]`.
pub open spec fn json_array_at(s: Seq<char>, i: int) -> Option<(Seq<ValueView>, int)>
    decreases s.len() - i, 1int,
{
    if char_at(s, i, '[') {
        let inner = json_items_at(s, i + 1, true);
        let c = ws_end(s, inner.1);
        if char_at(s, c, ']') {
            Some((inner.0, c + 1))
        } else {
            None
        }
    } else {
        None
    }
}

/// Where the next member of a list starts: at `i` for the first, behind
/// a comma at `i` for the others.
pub open spec fn member_start(s: Seq<char>, i: int, first: bool) -> Option<int> {
    if first {
        Some(i)
    } else if char_at(s, i, ',') {
        Some(i + 1)
    } else {
        None
    }
}

/// The values of a list from `i` on. A comma that no value follows is no
/// part of the list.
pub open spec fn json_items_at(s: Seq<char>, i: int, first: bool) -> (Seq<ValueView>, int)
    decreases s.len() - i, 4int,
{
    match member_start(s, i, first) {
        Some(p) => match json_value_at(s, p) {
            Some((v, e)) => if 0 <= i < e <= s.len() {
                let rest = json_items_at(s, e, false);
                (seq![v] + rest.0, rest.1)
            } else {
                (Seq::empty(), i)
            },
            None => (Seq::empty(), i),
        },
        None => (Seq::empty(), i),
    }
}

/// An entry at `i`: a string, `:` and a value, with whitespace allowed
/// before each.
pub open spec fn json_pair_at(s: Seq<char>, i: int) -> Option<((Seq<char>, ValueView), int)>
    decreases s.len() - i, 3int,
{
    let a = ws_end(s, i);
    match quoted_run_at(s, a) {
        Some((k, b)) => {
            let c = ws_end(s, b);
            if 0 <= i <= c && char_at(s, c, ':') {
                match json_value_at(s, c + 1) {
                    Some((v, e)) => Some(((k, v), e)),
                    None => None,
                }
            } else {
                None
            }
        },
        None => None,
    }
}

/// The entries of a list from `i` on. A comma that no entry follows is
/// no part of the list.
pub open spec fn json_pairs_at(s: Seq<char>, i: int, first: bool) -> (Seq<(Seq<char>, ValueView)>, int)
    decreases s.len() - i, 4int,
{
    match member_start(s, i, first) {
        Some(p) => match json_pair_at(s, p) {
            Some((x, e)) => if 0 <= i < e <= s.len() {
                let rest = json_pairs_at(s, e, false);
                (seq![x] + rest.0, rest.1)
            } else {
                (Seq::empty(), i)
            },
            None => (Seq::empty(), i),
        },
        None => (Seq::empty(), i),
    }
}

/// The object that the whole text `s` writes: one object between
/// whitespace.
pub open spec fn json_document(s: Seq<char>) -> Option<Seq<(Seq<char>, ValueView)>> {
    match json_object_at(s, ws_end(s, 0)) {
        Some((entries, e)) => if ws_end(s, e) == s.len() {
            Some(entries)
        } else {
            None
        },
        None => None,
    }
}

fn ws(s: &Vec<char>, i: usize) -> (e: usize)
    requires
        i <= s.len(),
    ensures
        e == ws_end(s@, i as int),
        i <= e <= s.len(),
{
    scan(s, i, CharClass::Multispace)
}

fn json_value(s: &Vec<char>, i: usize) -> (r: Option<(Value, usize)>)
    requires
        i <= s.len(),
    ensures
        match json_value_at(s@, i as int) {
            Some((v, e)) => r matches Some((x, j)) && x@ == v && j == e && i < e <= s.len() && v.wf(),
            None => r is None,
        },
    decreases s.len() - i, 2int,
{
    let a = ws(s, i);
    if let Some((d, e)) = json_object(s, a) {
        return Some((Value::Object(d), ws(s, e)));
    }
    if let Some((items, e)) = json_array(s, a) {
        proof {
            lemma_array_view(items);
        }
        return Some((Value::Array(items), ws(s, e)));
    }
    if let Some((t, e)) = quoted_run(s, a) {
        return Some((Value::String(t), ws(s, e)));
    }
    if let Some(e) = decimal(s, a) {
        proof {
            lemma_decimal_literal(s@, a as int, e as int);
        }
        return Some((Value::Number(Number::literal(string_of(s, a, e))), ws(s, e)));
    }
    if let Some((b, e)) = boolean(s, a) {
        return Some((Value::Bool(b), ws(s, e)));
    }
    None
}

fn json_object(s: &Vec<char>, i: usize) -> (r: Option<(Dict, usize)>)
    requires
        i <= s.len(),
    ensures
        match json_object_at(s@, i as int) {
            Some((v, e)) => r matches Some((d, j)) && d@ == v && j == e && i < e <= s.len()
                && entries_wf(v),
            None => r is None,
        },
    decreases s.len() - i, 1int,
{
    if !has_char(s, i, '{') {
        return None;
    }
    let (d, b) = json_pairs(s, i + 1);
    let c = ws(s, b);
    if !has_char(s, c, '}') {
        return None;
    }
    Some((d, c + 1))
}

fn json_array(s: &Vec<char>, i: usize) -> (r: Option<(Vec<Value>, usize)>)
    requires
        i <= s.len(),
    ensures
        match json_array_at(s@, i as int) {
            Some((v, e)) => r matches Some((x, j)) && items_view(x@) == v && j == e && i < e <= s.len()
                && ValueView::Array(v).wf(),
            None => r is None,
        },
    decreases s.len() - i, 1int,
{
    if !has_char(s, i, '[') {
        return None;
    }
    let (found, b) = json_items(s, i + 1);
    let c = ws(s, b);
    if !has_char(s, c, ']') {
        return None;
    }
    Some((found, c + 1))
}

fn json_items(s: &Vec<char>, i: usize) -> (r: (Vec<Value>, usize))
    requires
        i <= s.len(),
    ensures
        items_view(r.0@) == json_items_at(s@, i as int, true).0,
        r.1 == json_items_at(s@, i as int, true).1,
        i <= r.1 <= s.len(),
        ValueView::Array(items_view(r.0@)).wf(),
    decreases s.len() - i, 4int,
{
    let mut out: Vec<Value> = Vec::new();
    let mut j: usize = i;
    let mut first = true;
    loop
        invariant_except_break
            json_items_at(s@, i as int, true) == (
                items_view(out@) + json_items_at(s@, j as int, first).0,
                json_items_at(s@, j as int, first).1,
            ),
        invariant
            i <= j <= s.len(),
            forall|x: int| 0 <= x < out.len() ==> (#[trigger] items_view(out@)[x]).wf(),
        ensures
            json_items_at(s@, i as int, true) == (items_view(out@), j as int),
        decreases s.len() - j,
    {
        let found = if first {
            json_value(s, j)
        } else if has_char(s, j, ',') {
            json_value(s, j + 1)
        } else {
            None
        };
        match found {
            Some((v, e)) => {
                let ghost before = items_view(out@);
                let ghost rest = json_items_at(s@, e as int, false);
                out.push(v);
                proof {
                    assert(items_view(out@) =~= before.push(v@));
                    assert(before + (seq![v@] + rest.0) =~= before.push(v@) + rest.0);
                    assert forall|x: int| 0 <= x < out.len() implies (#[trigger] items_view(
                        out@,
                    )[x]).wf() by {
                        if x < before.len() {
                            assert(items_view(out@)[x] == before[x]);
                        }
                    }
                }
                j = e;
                first = false;
            },
            None => {
                assert(items_view(out@) + Seq::<ValueView>::empty() =~= items_view(out@));
                break ;
            },
        }
    }
    (out, j)
}

fn json_pair(s: &Vec<char>, i: usize) -> (r: Option<((String, Value), usize)>)
    requires
        i <= s.len(),
    ensures
        match json_pair_at(s@, i as int) {
            Some((p, e)) => r matches Some((x, j)) && x.0@ == p.0 && x.1@ == p.1 && j == e && i < e
                <= s.len() && p.1.wf(),
            None => r is None,
        },
    decreases s.len() - i, 3int,
{
    let a = ws(s, i);
    let (k, b) = match quoted_run(s, a) {
        Some(found) => found,
        None => { return None; },
    };
    let c = ws(s, b);
    if !has_char(s, c, ':') {
        return None;
    }
    match json_value(s, c + 1) {
        Some((v, e)) => Some(((k, v), e)),
        None => None,
    }
}

fn json_pairs(s: &Vec<char>, i: usize) -> (r: (Dict, usize))
    requires
        i <= s.len(),
    ensures
        r.0@ == put_all(json_pairs_at(s@, i as int, true).0),
        r.1 == json_pairs_at(s@, i as int, true).1,
        i <= r.1 <= s.len(),
        entries_wf(r.0@),
    decreases s.len() - i, 4int,
{
    let mut d = Dict::new();
    let ghost mut seen: Seq<(Seq<char>, ValueView)> = Seq::empty();
    let mut j: usize = i;
    let mut first = true;
    loop
        invariant_except_break
            json_pairs_at(s@, i as int, true) == (
                seen + json_pairs_at(s@, j as int, first).0,
                json_pairs_at(s@, j as int, first).1,
            ),
        invariant
            i <= j <= s.len(),
            d@ == put_all(seen),
            entries_wf(d@),
        ensures
            json_pairs_at(s@, i as int, true) == (seen, j as int),
        decreases s.len() - j,
    {
        let found = if first {
            json_pair(s, j)
        } else if has_char(s, j, ',') {
            json_pair(s, j + 1)
        } else {
            None
        };
        match found {
            Some((p, e)) => {
                let ghost rest = json_pairs_at(s@, e as int, false);
                let ghost pv = (p.0@, p.1@);
                proof {
                    lemma_put_wf(d@, pv.0, pv.1);
                    assert(seen.push(pv).drop_last() =~= seen);
                    assert(seen + (seq![pv] + rest.0) =~= seen.push(pv) + rest.0);
                    seen = seen.push(pv);
                }
                d.insert(p.0, p.1);
                j = e;
                first = false;
            },
            None => {
                assert(seen + Seq::<(Seq<char>, ValueView)>::empty() =~= seen);
                break ;
            },
        }
    }
    (d, j)
}

/// Parses the text `config`, which holds one object.
pub fn parse_json(config: &str) -> (r: Result<Value, ParseError>)
    ensures
        match json_document(config@) {
            Some(entries) => r matches Ok(v) && v@ == ValueView::Object(entries) && v@.wf(),
            None => r == Err::<Value, ParseError>(ParseError::Malformed),
        },
{
    let s = chars_of(config);
    let a = ws(&s, 0);
    match json_object(&s, a) {
        Some((d, e)) => {
            if ws(&s, e) == s.len() {
                Ok(Value::Object(d))
            } else {
                Err(ParseError::Malformed)
            }
        },
        None => Err(ParseError::Malformed),
    }
}

} // verus!
