//! The value tree that parsing produces, and its mathematical model.

use vstd::prelude::*;
use crate::common::{decimal, is_decimal_literal};
use crate::encode::{encoded, encoded_entries, push_quoted, quote};
use crate::model::{
    block_value, combined, entries_wf, lemma_block_value_wf, lemma_combined_wf, lemma_merged_wf,
    lemma_placed_wf, lemma_put_wf, lookup, merged, placed, position, put, remaining, wrapped, Mode,
    NumberView, ValueView,
};
use crate::text::chars_of;

verus! {

broadcast use vstd::std_specs::vec::axiom_vec_index_decreases;

/// The single failure outcome of a parse.
#[derive(Clone, Copy, Debug, PartialEq, Eq)]
pub enum ParseError {
    /// The text does not match the grammar as a whole.
    Malformed,
}

/// How a number was written.
#[derive(Clone, Debug, PartialEq)]
pub enum N {
    /// The value of a hexadecimal literal.
    Hex(u32),
    /// The text of a decimal literal.
    Decimal(String),
}

/// A number, kept exactly as it was written.
#[derive(Clone, Debug, PartialEq)]
pub struct Number {
    n: N,
}

/// A value tree. A clone holds the same tree.
#[derive(Debug, PartialEq)]
pub enum Value {
    Null,
    Bool(bool),
    Number(Number),
    String(String),
    Array(Vec<Value>),
    Object(Dict),
}

/// An object: entries in a fixed order, at most one under each key. Two
/// objects are equal where they hold the same entries in the same order.
#[derive(Debug, PartialEq)]
pub struct Dict {
    entries: Vec<(String, Value)>,
}

impl View for Number {
    type V = NumberView;

    closed spec fn view(&self) -> NumberView {
        match self.n {
            N::Hex(u) => NumberView::Hex(u),
            N::Decimal(t) => NumberView::Decimal(t@),
        }
    }
}

impl Number {
    /// The number that a hexadecimal literal wrote.
    pub fn from_hex(v: u32) -> (r: Number)
        ensures
            r@ == NumberView::Hex(v),
            r@.wf(),
    {
        Number { n: N::Hex(v) }
    }

    /// The number that the decimal literal `text` writes.
    pub fn literal(text: String) -> (r: Number)
        requires
            is_decimal_literal(text@),
        ensures
            r@ == NumberView::Decimal(text@),
            r@.wf(),
    {
        Number { n: N::Decimal(text) }
    }

    /// The number that `text` writes, where `text` is a decimal literal.
    pub fn from_literal(text: String) -> (r: Option<Number>)
        ensures
            match r {
                Some(n) => is_decimal_literal(text@) && n@ == NumberView::Decimal(text@),
                None => !is_decimal_literal(text@),
            },
    {
        let chars = chars_of(text.as_str());
        match decimal(&chars, 0) {
            Some(e) => if e == chars.len() {
                Some(Number::literal(text))
            } else {
                None
            },
            None => None,
        }
    }

    /// How the number was written.
    pub fn n(&self) -> (r: &N)
        ensures
            match *r {
                N::Hex(v) => self@ == NumberView::Hex(v),
                N::Decimal(t) => self@ == NumberView::Decimal(t@),
            },
    {
        &self.n
    }
}

impl View for Value {
    type V = ValueView;

    open spec fn view(&self) -> ValueView
        decreases self,
    {
        match self {
            Value::Null => ValueView::Null,
            Value::Bool(b) => ValueView::Bool(*b),
            Value::Number(n) => ValueView::Number(n@),
            Value::String(s) => ValueView::String(s@),
            Value::Array(items) => ValueView::Array(array_view(*items)),
            Value::Object(d) => ValueView::Object(d.view()),
        }
    }
}

/// The models of the items of an array.
pub open spec fn array_view(items: Vec<Value>) -> Seq<ValueView>
    decreases items,
{
    Seq::new(
        items.len() as nat,
        |i: int|
            if 0 <= i < items.len() {
                items[i].view()
            } else {
                ValueView::Null
            },
    )
}

impl View for Dict {
    type V = Seq<(Seq<char>, ValueView)>;

    closed spec fn view(&self) -> Seq<(Seq<char>, ValueView)>
        decreases self,
    {
        Seq::new(
            self.entries.len() as nat,
            |i: int|
                if 0 <= i < self.entries.len() {
                    (self.entries[i].0@, self.entries[i].1.view())
                } else {
                    (Seq::empty(), ValueView::Null)
                },
        )
    }
}

impl Number {
    fn duplicate(&self) -> (r: Number)
        ensures
            r@ == self@,
    {
        match &self.n {
            N::Hex(v) => Number { n: N::Hex(*v) },
            N::Decimal(t) => Number { n: N::Decimal(t.clone()) },
        }
    }
}

impl Value {
    fn duplicate(&self) -> (r: Value)
        ensures
            r@ == self@,
        decreases self,
    {
        match self {
            Value::Null => Value::Null,
            Value::Bool(b) => Value::Bool(*b),
            Value::Number(n) => Value::Number(n.duplicate()),
            Value::String(t) => Value::String(t.clone()),
            Value::Array(items) => {
                let mut out: Vec<Value> = Vec::new();
                let mut j: usize = 0;
                while j < items.len()
                    invariant
                        j <= items.len(),
                        out.len() == j,
                        decreases_to!(self => items),
                        forall|x: int| 0 <= x < j ==> (#[trigger] out[x])@ == items[x]@,
                    decreases items.len() - j,
                {
                    out.push(items[j].duplicate());
                    j += 1;
                }
                proof {
                    lemma_array_view(*items);
                    lemma_array_view(out);
                    assert(items_view(out@) =~= items_view(items@));
                }
                Value::Array(out)
            },
            Value::Object(d) => Value::Object(d.duplicate()),
        }
    }
}

impl Dict {
    fn duplicate(&self) -> (r: Dict)
        ensures
            r@ == self@,
        decreases self,
    {
        let mut out: Vec<(String, Value)> = Vec::new();
        let mut j: usize = 0;
        while j < self.entries.len()
            invariant
                j <= self.entries.len(),
                out.len() == j,
                forall|x: int|
                    0 <= x < j ==> (#[trigger] out[x]).0@ == self.entries[x].0@ && out[x].1@
                        == self.entries[x].1@,
            decreases self.entries.len() - j,
        {
            out.push((self.entries[j].0.clone(), self.entries[j].1.duplicate()));
            j += 1;
        }
        proof {
            self.lemma_view();
            assert(pairs_view(out@) =~= pairs_view(self.entries@));
        }
        Dict::of(out)
    }
}

impl Clone for Value {
    fn clone(&self) -> (r: Self)
        ensures
            r@ == self@,
    {
        self.duplicate()
    }
}

impl Clone for Dict {
    fn clone(&self) -> (r: Self)
        ensures
            r@ == self@,
    {
        self.duplicate()
    }
}

/// The models of a sequence of values.
pub open spec fn items_view(items: Seq<Value>) -> Seq<ValueView> {
    Seq::new(items.len(), |i: int| items[i]@)
}

/// The models of a sequence of keys and values.
pub open spec fn pairs_view(pairs: Seq<(String, Value)>) -> Seq<(Seq<char>, ValueView)> {
    Seq::new(pairs.len(), |i: int| (pairs[i].0@, pairs[i].1@))
}

/// The texts of a sequence of strings.
pub open spec fn labels_view(labels: Seq<String>) -> Seq<Seq<char>> {
    Seq::new(labels.len(), |i: int| labels[i]@)
}

/// The model of an array is made of the models of its items.
pub proof fn lemma_array_view(items: Vec<Value>)
    ensures
        Value::Array(items)@ == ValueView::Array(items_view(items@)),
{
    assert(array_view(items) =~= items_view(items@));
}

/// Finds the first of the first `upto` entries with the key `key`.
fn find(entries: &Vec<(String, Value)>, upto: usize, key: &String) -> (r: Option<usize>)
    requires
        upto <= entries.len(),
    ensures
        match position(pairs_view(entries@).take(upto as int), key@, 0) {
            Some(i) => r == Some(i as usize) && 0 <= i < upto,
            None => r is None,
        },
{
    let ghost view = pairs_view(entries@).take(upto as int);
    let mut i: usize = 0;
    while i < upto
        invariant
            i <= upto <= entries.len(),
            view == pairs_view(entries@).take(upto as int),
            position(view, key@, 0) == position(view, key@, i as int),
        decreases upto - i,
    {
        assert(view[i as int].0 == entries[i as int].0@);
        if entries[i].0 == *key {
            return Some(i);
        }
        i += 1;
    }
    None
}

impl Dict {
    /// An object without entries.
    pub fn new() -> (d: Dict)
        ensures
            d@ == Seq::<(Seq<char>, ValueView)>::empty(),
            entries_wf(d@),
    {
        let d = Dict { entries: Vec::new() };
        assert(d@ =~= Seq::empty());
        d
    }

    /// The object with the entries `pairs`.
    fn of(pairs: Vec<(String, Value)>) -> (d: Dict)
        ensures
            d@ == pairs_view(pairs@),
    {
        let d = Dict { entries: pairs };
        assert(d@ =~= pairs_view(pairs@));
        d
    }

    proof fn lemma_view(&self)
        ensures
            self@ == pairs_view(self.entries@),
    {
        assert(self@ =~= pairs_view(self.entries@));
    }

    /// The number of entries.
    pub fn len(&self) -> (n: usize)
        ensures
            n == self@.len(),
    {
        self.entries.len()
    }

    /// The key of the entry at `i`.
    pub fn key(&self, i: usize) -> (k: &String)
        requires
            i < self@.len(),
        ensures
            k@ == self@[i as int].0,
    {
        &self.entries[i].0
    }

    /// The value of the entry at `i`.
    pub fn value(&self, i: usize) -> (v: &Value)
        requires
            i < self@.len(),
        ensures
            v@ == self@[i as int].1,
    {
        &self.entries[i].1
    }

    /// The value under `key`.
    pub fn get(&self, key: &str) -> (r: Option<&Value>)
        ensures
            match lookup(self@, key@) {
                Some(v) => r matches Some(x) && x@ == v,
                None => r is None,
            },
    {
        let k = key.to_owned();
        proof {
            self.lemma_view();
            assert(pairs_view(self.entries@).take(self.entries.len() as int) =~= self@);
        }
        match find(&self.entries, self.entries.len(), &k) {
            Some(i) => Some(&self.entries[i].1),
            None => None,
        }
    }

    /// Whether there is an entry under `key`.
    pub fn contains_key(&self, key: &str) -> (r: bool)
        ensures
            r == lookup(self@, key@) is Some,
    {
        self.get(key).is_some()
    }

    /// Puts `value` under `key`, in place of what was there.
    pub fn insert(&mut self, key: String, value: Value)
        ensures
            final(self)@ == put(old(self)@, key@, value@),
            entries_wf(old(self)@) && value@.wf() ==> entries_wf(final(self)@),
    {
        proof {
            if entries_wf(self@) && value@.wf() {
                lemma_put_wf(self@, key@, value@);
            }
            self.lemma_view();
            assert(pairs_view(self.entries@).take(self.entries.len() as int) =~= self@);
        }
        match find(&self.entries, self.entries.len(), &key) {
            Some(i) => {
                self.entries.set(i, (key, value));
            },
            None => {
                self.entries.push((key, value));
            },
        }
        proof {
            self.lemma_view();
            assert(pairs_view(self.entries@) =~= put(old(self)@, key@, value@));
        }
    }

    /// Places the entry `key`, `value` before the others, combined with
    /// what was there under `key`.
    pub fn place(&mut self, key: String, value: Value, mode: Mode)
        ensures
            final(self)@ == placed(mode, key@, value@, old(self)@),
            entries_wf(old(self)@) && value@.wf() ==> entries_wf(final(self)@),
    {
        proof {
            if entries_wf(self@) && value@.wf() {
                lemma_placed_wf(mode, key@, value@, self@);
            }
            self.lemma_view();
            assert(pairs_view(self.entries@).take(self.entries.len() as int) =~= self@);
        }
        let ghost k = key@;
        let ghost v = value@;
        match find(&self.entries, self.entries.len(), &key) {
            Some(i) => {
                let existing = self.entries.remove(i);
                let both = combine(mode, value, existing.1);
                self.entries.insert(0, (key, both));
                proof {
                    self.lemma_view();
                    assert(pairs_view(self.entries@) =~= seq![(k, combined(mode, v, old(self)@[i as int].1))]
                        + old(self)@.remove(i as int));
                }
            },
            None => {
                self.entries.insert(0, (key, value));
                proof {
                    self.lemma_view();
                    assert(pairs_view(self.entries@) =~= seq![(k, v)] + old(self)@);
                }
            },
        }
    }

    /// Appends the texts of the entries, with a comma between each two.
    pub fn write(&self, out: &mut Vec<char>)
        ensures
            final(out)@ == old(out)@ + encoded_entries(self@),
        decreases self,
    {
        proof {
            self.lemma_view();
        }
        let ghost all = self@;
        let ghost head = out@;
        let mut j: usize = 0;
        assert(out@ =~= head + encoded_entries(all.take(0)));
        while j < self.entries.len()
            invariant
                j <= self.entries.len(),
                all == pairs_view(self.entries@),
                out@ == head + encoded_entries(all.take(j as int)),
            decreases self.entries.len() - j,
        {
            let ghost before = out@;
            if j > 0 {
                out.push(',');
            }
            push_quoted(out, &self.entries[j].0);
            out.push(':');
            self.entries[j].1.write(out);
            j += 1;
            proof {
                let now = all.take(j as int);
                let e = all[j - 1];
                assert(now.drop_last() =~= all.take(j - 1));
                assert(now.last() == e);
                if j == 1 {
                    assert(now[0] == e);
                    assert(all.take(0).len() == 0);
                    assert(before =~= head);
                    assert(out@ =~= head + (quote(e.0) + seq![':'] + encoded(e.1)));
                } else {
                    assert(out@ =~= head + (encoded_entries(all.take(j - 1)) + seq![','] + quote(e.0)
                        + seq![':'] + encoded(e.1)));
                }
            }
        }
        assert(all.take(self.entries.len() as int) =~= all);
    }

    /// The union of two objects in which `incoming` wins each key that
    /// both hold.
    pub fn merge(incoming: Dict, existing: Dict) -> (d: Dict)
        ensures
            d@ == merged(incoming@, existing@),
            entries_wf(incoming@) && entries_wf(existing@) ==> entries_wf(d@),
    {
        proof {
            if entries_wf(incoming@) && entries_wf(existing@) {
                lemma_merged_wf(incoming@, existing@);
            }
            incoming.lemma_view();
            existing.lemma_view();
        }
        let ghost a = incoming@;
        let ghost b = existing@;
        let mut out = incoming.entries;
        let n = out.len();
        let mut rest = existing.entries;
        let ghost all = rest@;
        let ghost mut x: int = 0;
        while rest.len() > 0
            invariant
                0 <= x <= all.len(),
                rest@ == all.skip(x),
                b == pairs_view(all),
                n == a.len(),
                n <= out.len(),
                pairs_view(out@) == a + remaining(b.take(x), a),
            decreases rest.len(),
        {
            let e = rest.remove(0);
            proof {
                assert(e == all[x]);
                assert(pairs_view(out@).take(n as int) =~= a);
                assert(b.take(x + 1).drop_last() =~= b.take(x));
                assert(b.take(x + 1).last() == (e.0@, e.1@));
                assert(rest@ =~= all.skip(x + 1));
            }
            let ghost before = pairs_view(out@);
            if find(&out, n, &e.0).is_none() {
                out.push(e);
                proof {
                    assert(pairs_view(out@) =~= before.push((e.0@, e.1@)));
                    assert(a + remaining(b.take(x), a).push((e.0@, e.1@)) =~= (a + remaining(
                        b.take(x),
                        a,
                    )).push((e.0@, e.1@)));
                }
            }
            proof {
                x = x + 1;
            }
        }
        assert(b.take(x) =~= b);
        Dict::of(out)
    }
}

/// The value that a key keeps when `incoming` meets `existing` under it.
pub fn combine(mode: Mode, incoming: Value, existing: Value) -> (r: Value)
    ensures
        r@ == combined(mode, incoming@, existing@),
        incoming@.wf() && existing@.wf() ==> r@.wf(),
{
    proof {
        if incoming@.wf() && existing@.wf() {
            lemma_combined_wf(mode, incoming@, existing@);
        }
    }
    match mode {
        Mode::Merge => match incoming {
            Value::Object(a) => match existing {
                Value::Object(b) => Value::Object(Dict::merge(a, b)),
                other => other,
            },
            _ => existing,
        },
        Mode::ArrayNested => match incoming {
            Value::Array(a) => match existing {
                Value::Array(b) => {
                    let mut a = a;
                    let mut b = b;
                    let ghost x = a@;
                    let ghost y = b@;
                    proof {
                        lemma_array_view(a);
                        lemma_array_view(b);
                    }
                    a.append(&mut b);
                    proof {
                        lemma_array_view(a);
                        assert(items_view(a@) =~= items_view(x) + items_view(y));
                    }
                    Value::Array(a)
                },
                other => other,
            },
            _ => existing,
        },
    }
}

/// The value of a block with the labels `labels` and the body `inner`.
pub fn block(mode: Mode, labels: Vec<String>, inner: Value) -> (r: Value)
    ensures
        r@ == block_value(mode, labels_view(labels@), inner@),
        inner@.wf() ==> r@.wf(),
{
    proof {
        if inner@.wf() {
            lemma_block_value_wf(mode, labels_view(labels@), inner@);
        }
    }
    let ghost all = labels_view(labels@);
    let mut labels = labels;
    let mut cur = inner;
    while labels.len() > 0
        invariant
            labels.len() <= all.len(),
            labels_view(labels@) == all.take(labels.len() as int),
            cur@ == wrapped(mode, all.skip(labels.len() as int), inner@),
        decreases labels.len(),
    {
        let ghost n = labels.len() as int;
        let ghost before = cur@;
        let label = labels.pop().unwrap();
        proof {
            assert(label@ == all.take(n)[n - 1]);
            assert(labels_view(labels@) =~= all.take(n - 1));
            assert(all.skip(n - 1).drop_first() =~= all.skip(n));
            assert(all.skip(n - 1)[0] == label@);
        }
        let child = match mode {
            Mode::Merge => cur,
            Mode::ArrayNested => single(cur),
        };
        let mut d = Dict::new();
        d.insert(label, child);
        proof {
            assert(d@ =~= seq![(label@, child@)]);
        }
        cur = Value::Object(d);
    }
    assert(all.skip(0) =~= all);
    match mode {
        Mode::Merge => cur,
        Mode::ArrayNested => single(cur),
    }
}

/// The array whose one item is `item`.
pub fn single(item: Value) -> (r: Value)
    ensures
        r@ == ValueView::Array(seq![item@]),
        item@.wf() ==> r@.wf(),
{
    assert(seq![item@][0] == item@);
    let mut items: Vec<Value> = Vec::new();
    items.push(item);
    proof {
        lemma_array_view(items);
        assert(items_view(items@) =~= seq![item@]);
    }
    Value::Array(items)
}

} // verus!
