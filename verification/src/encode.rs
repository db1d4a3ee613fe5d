//! The compact text form of a value tree.

use vstd::prelude::*;
use crate::model::{NumberView, ValueView};
use crate::text::{chars_of, string_of};
use crate::types::{items_view, lemma_array_view, Number, Value, N};

verus! {

broadcast use vstd::std_specs::vec::axiom_vec_index_decreases;

/// The character that writes the digit `d`, in lower case from ten on.
pub open spec fn digit_char(d: int) -> char {
    if d < 10 {
        (48 + d) as u8 as char
    } else {
        (87 + d) as u8 as char
    }
}

/// The digits of `n` in radix `radix`, without leading zeros.
pub open spec fn digits(n: nat, radix: nat) -> Seq<char>
    decreases n,
{
    if radix < 2 || n < radix {
        seq![digit_char(n as int)]
    } else {
        proof {
            assert(n / radix < n) by (nonlinear_arith)
                requires
                    radix >= 2,
                    n >= radix,
            ;
        }
        digits(n / radix, radix).push(digit_char((n % radix) as int))
    }
}

/// How one character of a string is written: tab, carriage return, line
/// feed, both quotes and the backslash after a backslash, the other
/// characters from space to `~` as they are, every other character as
/// `\u{..}` with its code point in hexadecimal.
pub open spec fn escape_char(c: char) -> Seq<char> {
    if c == '\t' {
        seq!['\\', 't']
    } else if c == '\r' {
        seq!['\\', 'r']
    } else if c == '\n' {
        seq!['\\', 'n']
    } else if c == '\'' || c == '"' || c == '\\' {
        seq!['\\', c]
    } else if ' ' <= c <= '~' {
        seq![c]
    } else {
        seq!['\\', 'u', '{'] + digits(c as nat, 16) + seq!['}']
    }
}

/// How the string `t` is written, without the quotes around it.
pub open spec fn escape_text(t: Seq<char>) -> Seq<char>
    decreases t.len(),
{
    if t.len() == 0 {
        Seq::empty()
    } else {
        escape_text(t.drop_last()) + escape_char(t.last())
    }
}

/// How the string `t` is written.
pub open spec fn quote(t: Seq<char>) -> Seq<char> {
    seq!['"'] + escape_text(t) + seq!['"']
}

/// How a number is written: the value of a hexadecimal literal in
/// decimal, a decimal literal as it stands.
pub open spec fn number_text(n: NumberView) -> Seq<char> {
    match n {
        NumberView::Hex(v) => digits(v as nat, 10),
        NumberView::Decimal(t) => t,
    }
}

/// The text of `v`: objects as `{"k":v,...}`, arrays as `[v,...]`,
/// strings in double quotes, without any whitespace.
pub open spec fn encoded(v: ValueView) -> Seq<char>
    decreases v,
{
    match v {
        ValueView::Null => seq!['n', 'u', 'l', 'l'],
        ValueView::Bool(b) => if b {
            seq!['t', 'r', 'u', 'e']
        } else {
            seq!['f', 'a', 'l', 's', 'e']
        },
        ValueView::Number(n) => number_text(n),
        ValueView::String(t) => quote(t),
        ValueView::Array(items) => seq!['['] + encoded_items(items) + seq![']'],
        ValueView::Object(entries) => seq!['{'] + encoded_entries(entries) + seq!['}'],
    }
}

/// The texts of `items` with a comma between each two.
pub open spec fn encoded_items(items: Seq<ValueView>) -> Seq<char>
    decreases items,
{
    if items.len() == 0 {
        Seq::empty()
    } else if items.len() == 1 {
        encoded(items[0])
    } else {
        encoded_items(items.drop_last()) + seq![','] + encoded(items.last())
    }
}

/// The texts of `entries`, each as `"k":v`, with a comma between each
/// two.
pub open spec fn encoded_entries(entries: Seq<(Seq<char>, ValueView)>) -> Seq<char>
    decreases entries,
{
    if entries.len() == 0 {
        Seq::empty()
    } else if entries.len() == 1 {
        quote(entries[0].0) + seq![':'] + encoded(entries[0].1)
    } else {
        encoded_entries(entries.drop_last()) + seq![','] + quote(entries.last().0) + seq![':']
            + encoded(entries.last().1)
    }
}

/// Two texts of one value are the same text.
pub proof fn lemma_text_is_determined(v: ValueView, first: Seq<char>, second: Seq<char>)
    requires
        first == encoded(v),
        second == encoded(v),
    ensures
        first == second,
{
}

/// Appends the digits of `n` in the radix `radix`.
pub fn push_digits(out: &mut Vec<char>, n: u32, radix: u32)
    requires
        2 <= radix <= 16,
    ensures
        final(out)@ == old(out)@ + digits(n as nat, radix as nat),
    decreases n,
{
    if n >= radix {
        assert(n / radix < n) by (nonlinear_arith)
            requires
                radix >= 2,
                n >= radix,
        ;
        push_digits(out, n / radix, radix);
    }
    let d: u32 = n % radix;
    assert(d < radix && (n < radix ==> d == n)) by (nonlinear_arith)
        requires
            radix >= 2,
            d == n % radix,
    ;
    let c: char = if d < 10 {
        ((48 + d) as u8) as char
    } else {
        ((87 + d) as u8) as char
    };
    out.push(c);
    proof {
        assert(c == digit_char(d as int));
        if n >= radix {
            let head = digits((n / radix) as nat, radix as nat);
            assert(digits(n as nat, radix as nat) == head.push(c));
            assert(old(out)@ + head.push(c) =~= (old(out)@ + head).push(c));
        } else {
            assert(digits(n as nat, radix as nat) == seq![c]);
            assert(old(out)@ + seq![c] =~= old(out)@.push(c));
        }
    }
}

/// Appends `piece`.
fn push_all(out: &mut Vec<char>, piece: &Vec<char>)
    ensures
        final(out)@ == old(out)@ + piece@,
{
    let mut j: usize = 0;
    while j < piece.len()
        invariant
            j <= piece.len(),
            out@ == old(out)@ + piece@.take(j as int),
        decreases piece.len() - j,
    {
        out.push(piece[j]);
        j += 1;
        assert(piece@.take(j as int) =~= piece@.take(j - 1).push(piece[j - 1]));
    }
    assert(piece@.take(piece.len() as int) =~= piece@);
}

/// Appends how the character `c` of a string is written.
fn push_escaped_char(out: &mut Vec<char>, c: char)
    ensures
        final(out)@ == old(out)@ + escape_char(c),
{
    let n: u32 = c as u32;
    if n == 9 {
        out.push('\\');
        out.push('t');
        assert(out@ =~= old(out)@ + seq!['\\', 't']);
    } else if n == 13 {
        out.push('\\');
        out.push('r');
        assert(out@ =~= old(out)@ + seq!['\\', 'r']);
    } else if n == 10 {
        out.push('\\');
        out.push('n');
        assert(out@ =~= old(out)@ + seq!['\\', 'n']);
    } else if n == 39 || n == 34 || n == 92 {
        out.push('\\');
        out.push(c);
        assert(out@ =~= old(out)@ + seq!['\\', c]);
    } else if 32 <= n && n <= 126 {
        out.push(c);
        assert(out@ =~= old(out)@ + seq![c]);
    } else {
        out.push('\\');
        out.push('u');
        out.push('{');
        let ghost head = out@;
        push_digits(out, n, 16);
        out.push('}');
        assert(out@ =~= old(out)@ + (seq!['\\', 'u', '{'] + digits(c as nat, 16) + seq!['}']));
    }
}

/// Appends how the string `text` is written, in its quotes.
pub fn push_quoted(out: &mut Vec<char>, text: &String)
    ensures
        final(out)@ == old(out)@ + quote(text@),
{
    let t = chars_of(text.as_str());
    out.push('"');
    let ghost head = out@;
    let mut j: usize = 0;
    while j < t.len()
        invariant
            j <= t.len(),
            out@ == head + escape_text(t@.take(j as int)),
        decreases t.len() - j,
    {
        let ghost before = out@;
        push_escaped_char(out, t[j]);
        j += 1;
        proof {
            assert(t@.take(j as int).drop_last() =~= t@.take(j - 1));
            assert(t@.take(j as int).last() == t[j - 1]);
            assert(head + (escape_text(t@.take(j - 1)) + escape_char(t[j - 1])) =~= before + escape_char(
                t[j - 1],
            ));
        }
    }
    out.push('"');
    proof {
        assert(t@.take(t.len() as int) =~= t@);
        assert(out@ =~= old(out)@ + (seq!['"'] + escape_text(t@) + seq!['"']));
    }
}

impl Number {
    /// Appends the number's text.
    pub fn write(&self, out: &mut Vec<char>)
        ensures
            final(out)@ == old(out)@ + number_text(self@),
    {
        match self.n() {
            N::Hex(v) => push_digits(out, *v, 10),
            N::Decimal(t) => {
                let chars = chars_of(t.as_str());
                push_all(out, &chars);
            },
        }
    }
}

impl Value {
    /// Appends the value's text.
    pub fn write(&self, out: &mut Vec<char>)
        ensures
            final(out)@ == old(out)@ + encoded(self@),
        decreases self,
    {
        match self {
            Value::Null => {
                out.push('n');
                out.push('u');
                out.push('l');
                out.push('l');
                assert(out@ =~= old(out)@ + seq!['n', 'u', 'l', 'l']);
            },
            Value::Bool(b) => {
                if *b {
                    out.push('t');
                    out.push('r');
                    out.push('u');
                    out.push('e');
                    assert(out@ =~= old(out)@ + seq!['t', 'r', 'u', 'e']);
                } else {
                    out.push('f');
                    out.push('a');
                    out.push('l');
                    out.push('s');
                    out.push('e');
                    assert(out@ =~= old(out)@ + seq!['f', 'a', 'l', 's', 'e']);
                }
            },
            Value::Number(n) => {
                n.write(out);
            },
            Value::String(t) => {
                push_quoted(out, t);
            },
            Value::Array(items) => {
                proof {
                    lemma_array_view(*items);
                }
                let ghost all = items_view(items@);
                out.push('[');
                let ghost head = out@;
                let mut j: usize = 0;
                while j < items.len()
                    invariant
                        j <= items.len(),
                        all == items_view(items@),
                        decreases_to!(self => items),
                        out@ == head + encoded_items(all.take(j as int)),
                    decreases items.len() - j,
                {
                    let ghost before = out@;
                    if j > 0 {
                        out.push(',');
                    }
                    items[j].write(out);
                    j += 1;
                    proof {
                        let now = all.take(j as int);
                        assert(now.drop_last() =~= all.take(j - 1));
                        assert(now.last() == items[j - 1]@);
                        if j == 1 {
                            assert(now[0] == items[0]@);
                            assert(all.take(0).len() == 0);
                            assert(before =~= head);
                        } else {
                            assert(out@ =~= head + (encoded_items(all.take(j - 1)) + seq![','] + encoded(
                                items[j - 1]@,
                            )));
                        }
                    }
                }
                out.push(']');
                proof {
                    assert(all.take(items.len() as int) =~= all);
                    assert(out@ =~= old(out)@ + (seq!['['] + encoded_items(all) + seq![']']));
                }
            },
            Value::Object(d) => {
                out.push('{');
                d.write(out);
                out.push('}');
                assert(out@ =~= old(out)@ + (seq!['{'] + encoded_entries(d@) + seq!['}']));
            },
        }
    }

    /// The value's text.
    pub fn to_string(&self) -> (text: String)
        ensures
            text@ == encoded(self@),
    {
        let mut out: Vec<char> = Vec::new();
        self.write(&mut out);
        assert(out@ =~= encoded(self@));
        string_of(&out, 0, out.len())
    }
}

} // verus!
