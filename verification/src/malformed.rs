//! Where the reading of a text stops, and why an unclosed string,
//! comment or brace makes a text malformed.

use vstd::prelude::*;
use crate::common::{decimal_at, lemma_decimal_literal};
use crate::hcl::{
    blank_at, blanks_end, block_comment_at, document, entries_at, entry_at, items_at, key_at,
    labels_at, line_comment_at, nested_at, object_at, space_end, value_at,
};
use crate::heredoc::{find_sub, heredoc_at, heredoc_head, occurs_at};
use crate::lexical::{char_at, lemma_run_end, pair_at, run_end, CharClass};
use crate::model::{Mode, ValueView};
use crate::strings::{body_at, escaped_at, find_char, find_pair, piece_at, quoted_at, quoted_run_at};

verus! {

/// What `find_char` finds is the first place where the character stands.
pub proof fn lemma_find_char(s: Seq<char>, i: int, a: char)
    requires
        0 <= i,
    ensures
        match find_char(s, i, a) {
            Some(j) => i <= j < s.len() && s[j] == a && forall|k: int| i <= k < j ==> s[k] != a,
            None => forall|k: int| i <= k < s.len() ==> s[k] != a,
        },
    decreases s.len() - i,
{
    if i < s.len() && s[i] != a {
        lemma_find_char(s, i + 1, a);
    }
}

/// What `find_sub` finds is a place from `i` on where the pattern stands.
pub proof fn lemma_find_sub(s: Seq<char>, i: int, pat: Seq<char>)
    requires
        0 <= i,
    ensures
        find_sub(s, i, pat) matches Some(k) ==> i <= k && occurs_at(s, k, pat),
    decreases s.len() - i,
{
    if i + pat.len() <= s.len() && !occurs_at(s, i, pat) && i < s.len() {
        lemma_find_sub(s, i + 1, pat);
    }
}

/// A run of literal text ends inside the text, at or behind its start.
pub proof fn lemma_escaped_end(s: Seq<char>, i: int)
    requires
        0 <= i <= s.len(),
    ensures
        escaped_at(s, i) matches Some((t, e)) ==> i <= e <= s.len(),
    decreases s.len() - i,
{
    if i < s.len() {
        if s[i] == '\\' {
            if i + 1 < s.len() {
                lemma_escaped_end(s, i + 2);
            }
        } else if s[i] != '"' && s[i] != '\n' {
            lemma_escaped_end(s, i + 1);
        }
    }
}

/// The text between the quotes ends inside the text, at or behind its
/// start.
pub proof fn lemma_body_end(s: Seq<char>, i: int)
    requires
        0 <= i <= s.len(),
    ensures
        i <= body_at(s, i).1 <= s.len(),
    decreases s.len() - i,
{
    if let Some((t, e)) = piece_at(s, i) {
        if i < e <= s.len() {
            lemma_body_end(s, e);
        }
    }
}

/// The blanks at `i` end inside the text, at or behind `i`, and no blank
/// stands where they end.
pub proof fn lemma_blanks_end(s: Seq<char>, i: int)
    requires
        0 <= i <= s.len(),
    ensures
        i <= blanks_end(s, i) <= s.len(),
        blanks_end(s, blanks_end(s, i)) == blanks_end(s, i),
    decreases s.len() - i,
{
    if let Some(e) = blank_at(s, i) {
        if i < e <= s.len() {
            lemma_blanks_end(s, e);
        }
    }
}

/// The labels at `i` end inside the text, at or behind `i`.
pub proof fn lemma_labels_end(s: Seq<char>, i: int)
    requires
        0 <= i <= s.len(),
    ensures
        i <= labels_at(s, i).1 <= s.len(),
    decreases s.len() - i,
{
    if let Some((t, e)) = quoted_run_at(s, space_end(s, i)) {
        if i < e <= s.len() {
            lemma_labels_end(s, e);
        }
    }
}

/// The items from `i` on end inside the text, at or behind `i`.
pub proof fn lemma_items_end(mode: Mode, s: Seq<char>, i: int)
    requires
        0 <= i <= s.len(),
    ensures
        i <= items_at(mode, s, i).1 <= s.len(),
    decreases s.len() - i,
{
    let a = blanks_end(s, i);
    if 0 <= i <= a <= s.len() {
        if let Some((v, e)) = value_at(mode, s, a) {
            let b = blanks_end(s, e);
            if i < b <= s.len() {
                lemma_items_end(mode, s, b);
            }
        }
    }
}

/// The entries from `i` on end inside the text, at or behind `i`, and no
/// further entry is read from where they end.
pub proof fn lemma_entries_end(mode: Mode, s: Seq<char>, i: int)
    requires
        0 <= i <= s.len(),
    ensures
        i <= entries_at(mode, s, i).1 <= s.len(),
        entries_at(mode, s, entries_at(mode, s, i).1) == (
            Seq::<(Seq<char>, ValueView)>::empty(),
            entries_at(mode, s, i).1,
        ),
    decreases s.len() - i,
{
    let a = blanks_end(s, i);
    if 0 <= i <= a <= s.len() {
        if let Some((p, e)) = entry_at(mode, s, a) {
            let b = blanks_end(s, e);
            if i < b <= s.len() {
                lemma_entries_end(mode, s, b);
            }
        }
    }
}

/// An object ends inside the text, behind its start.
pub proof fn lemma_object_end(mode: Mode, s: Seq<char>, i: int)
    requires
        0 <= i <= s.len(),
    ensures
        object_at(mode, s, i) matches Some((o, e)) ==> i < e <= s.len(),
{
    lemma_blanks_end(s, i);
    let a = blanks_end(s, i);
    if char_at(s, a, '{') {
        lemma_entries_end(mode, s, a + 1);
        let inner = entries_at(mode, s, a + 1);
        lemma_blanks_end(s, inner.1);
        let c = blanks_end(s, inner.1);
        if char_at(s, c, '}') {
            lemma_blanks_end(s, c + 1);
        }
    }
}

/// A heredoc ends inside the text, behind its start.
pub proof fn lemma_heredoc_end(s: Seq<char>, i: int)
    requires
        0 <= i <= s.len(),
    ensures
        heredoc_at(s, i) matches Some((t, e)) ==> i < e <= s.len(),
{
    if let Some((d0, d1, b)) = heredoc_head(s, i) {
        lemma_run_end(s, d0, CharClass::Alphanumeric);
        lemma_find_sub(s, b, s.subrange(d0, d1));
    }
}

/// A value ends inside the text, behind its start.
pub proof fn lemma_value_end(mode: Mode, s: Seq<char>, i: int)
    requires
        0 <= i <= s.len(),
    ensures
        value_at(mode, s, i) matches Some((v, e)) ==> i < e <= s.len(),
{
    lemma_object_end(mode, s, i);
    if char_at(s, i, '[') {
        lemma_items_end(mode, s, i + 1);
        lemma_blanks_end(s, items_at(mode, s, i + 1).1);
    }
    if char_at(s, i, '"') {
        lemma_body_end(s, i + 1);
    }
    lemma_heredoc_end(s, i);
    if pair_at(s, i, '0', 'x') {
        lemma_run_end(s, i + 2, CharClass::HexDigit);
    }
    if let Some(e) = decimal_at(s, i) {
        lemma_decimal_literal(s, i, e);
    }
}

/// A block ends inside the text, behind its start.
pub proof fn lemma_nested_end(mode: Mode, s: Seq<char>, i: int)
    requires
        0 <= i <= s.len(),
    ensures
        nested_at(mode, s, i) matches Some((v, e)) ==> i < e <= s.len(),
{
    lemma_labels_end(s, i);
    lemma_object_end(mode, s, labels_at(s, i).1);
}

/// An entry ends inside the text, behind its start.
pub proof fn lemma_entry_end(mode: Mode, s: Seq<char>, i: int)
    requires
        0 <= i <= s.len(),
    ensures
        entry_at(mode, s, i) matches Some((p, e)) ==> i < e <= s.len(),
{
    let k = key_at(s, space_end(s, i));
    let eq = space_end(s, k.1);
    let v = space_end(s, eq + 1);
    if 0 <= i <= eq <= s.len() {
        if eq < v <= s.len() {
            lemma_nested_end(mode, s, v);
            lemma_value_end(mode, s, v);
        }
        lemma_nested_end(mode, s, eq);
    }
}

/// Where the reading of the whole text stops: behind the last entry
/// that is read from the start, and the blanks behind it.
pub open spec fn stop(mode: Mode, s: Seq<char>) -> int {
    blanks_end(s, entries_at(mode, s, 0).1)
}

/// A text is well formed exactly where its reading stops at its end.
/// Where it stops earlier, neither a blank nor an entry stands there,
/// and the text as a whole writes no object, whatever was read before.
pub proof fn lemma_stop(mode: Mode, s: Seq<char>)
    ensures
        0 <= stop(mode, s) <= s.len(),
        document(mode, s) is Some <==> stop(mode, s) == s.len(),
        blanks_end(s, stop(mode, s)) == stop(mode, s),
        entry_at(mode, s, stop(mode, s)) is None,
{
    lemma_entries_end(mode, s, 0);
    let j = entries_at(mode, s, 0).1;
    lemma_blanks_end(s, j);
    let a = blanks_end(s, j);
    lemma_entry_end(mode, s, a);
    if let Some((p, e)) = entry_at(mode, s, a) {
        lemma_blanks_end(s, e);
        let rest = entries_at(mode, s, blanks_end(s, e));
        assert(entries_at(mode, s, j).0 == seq![p] + rest.0);
        assert((seq![p] + rest.0).len() > 0);
    }
}

/// A double quote that no other double quote follows opens no string.
pub proof fn lemma_unclosed_quote(s: Seq<char>, i: int)
    requires
        0 <= i,
        find_char(s, i + 1, '"') is None,
    ensures
        quoted_at(s, i) is None,
        quoted_run_at(s, i) is None,
{
    lemma_find_char(s, i + 1, '"');
    if char_at(s, i, '"') {
        lemma_body_end(s, i + 1);
        lemma_escaped_end(s, i + 1);
    }
}

/// A `/*` that no `*/` follows is no blank, and neither blanks nor an
/// entry are read from where it stands.
pub proof fn lemma_unclosed_comment(mode: Mode, s: Seq<char>, i: int)
    requires
        pair_at(s, i, '/', '*'),
        find_pair(s, i + 2, '*', '/') is None,
    ensures
        block_comment_at(s, i) is None,
        blank_at(s, i) is None,
        blanks_end(s, i) == i,
        entry_at(mode, s, i) is None,
{
    assert(run_end(s, i, CharClass::Multispace) == i);
    assert(run_end(s, i, CharClass::Space) == i);
    assert(run_end(s, i, CharClass::Identifier) == i);
    assert(line_comment_at(s, i) is None);
    assert(blank_at(s, i) is None);
    assert(quoted_run_at(s, i) is None);
    assert(labels_at(s, i).1 == i);
    assert(object_at(mode, s, i) is None);
    assert(nested_at(mode, s, i) is None);
    assert(key_at(s, i).1 == i);
}

/// Where no `}` stands from `i` on, neither an object nor a block is
/// read at `i`.
pub proof fn lemma_unclosed_brace(mode: Mode, s: Seq<char>, i: int)
    requires
        0 <= i <= s.len(),
        find_char(s, i, '}') is None,
    ensures
        object_at(mode, s, i) is None,
        nested_at(mode, s, i) is None,
{
    lemma_find_char(s, i, '}');
    lemma_labels_end(s, i);
    let h = labels_at(s, i).1;
    lemma_blanks_end(s, i);
    lemma_blanks_end(s, h);
    let a = blanks_end(s, i);
    if char_at(s, a, '{') {
        lemma_entries_end(mode, s, a + 1);
        lemma_blanks_end(s, entries_at(mode, s, a + 1).1);
    }
    let b = blanks_end(s, h);
    if char_at(s, b, '{') {
        lemma_entries_end(mode, s, b + 1);
        lemma_blanks_end(s, entries_at(mode, s, b + 1).1);
    }
}

} // verus!
