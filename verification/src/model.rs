//! The mathematical model of a value tree, and the rules by which the
//! entries of a block fold into an object.

use vstd::prelude::*;
use crate::common::is_decimal_literal;

verus! {

/// How a number was written.
pub enum NumberView {
    /// The value of a hexadecimal literal.
    Hex(u32),
    /// The text of a decimal literal.
    Decimal(Seq<char>),
}

/// A value tree. An object is the sequence of its entries, each a key and
/// a value.
pub enum ValueView {
    Null,
    Bool(bool),
    Number(NumberView),
    String(Seq<char>),
    Array(Seq<ValueView>),
    Object(Seq<(Seq<char>, ValueView)>),
}

/// How entries with the same key, and labeled blocks, become values.
#[derive(Clone, Copy, Debug, PartialEq, Eq)]
pub enum Mode {
    /// Objects under one key merge into one object.
    Merge,
    /// Blocks become arrays, and arrays under one key are concatenated.
    ArrayNested,
}

/// The first position from `from` on at which an entry has the key `key`.
pub open spec fn position(entries: Seq<(Seq<char>, ValueView)>, key: Seq<char>, from: int) -> Option<int>
    decreases entries.len() - from,
{
    if from < 0 || from >= entries.len() {
        None
    } else if entries[from].0 == key {
        Some(from)
    } else {
        position(entries, key, from + 1)
    }
}

/// The value that `entries` hold under `key`.
pub open spec fn lookup(entries: Seq<(Seq<char>, ValueView)>, key: Seq<char>) -> Option<ValueView> {
    match position(entries, key, 0) {
        Some(i) => Some(entries[i].1),
        None => None,
    }
}

/// Whether `entries` hold an entry with the key `key`.
pub open spec fn has_key(entries: Seq<(Seq<char>, ValueView)>, key: Seq<char>) -> bool {
    exists|i: int| 0 <= i < entries.len() && (#[trigger] entries[i]).0 == key
}

/// Whether no two of `entries` have the same key.
pub open spec fn distinct_keys(entries: Seq<(Seq<char>, ValueView)>) -> bool {
    forall|i: int, j: int|
        0 <= i < j < entries.len() ==> (#[trigger] entries[i]).0 != (#[trigger] entries[j]).0
}

impl NumberView {
    /// A decimal number holds a decimal literal.
    pub open spec fn wf(self) -> bool {
        match self {
            NumberView::Hex(_) => true,
            NumberView::Decimal(t) => is_decimal_literal(t),
        }
    }
}

impl ValueView {
    /// Every number in the tree is well formed, and no object in it has
    /// two entries with the same key.
    pub open spec fn wf(self) -> bool
        decreases self,
    {
        match self {
            ValueView::Number(n) => n.wf(),
            ValueView::Array(items) => forall|i: int|
                0 <= i < items.len() ==> (#[trigger] items[i]).wf(),
            ValueView::Object(entries) => distinct_keys(entries) && forall|i: int|
                0 <= i < entries.len() ==> (#[trigger] entries[i]).1.wf(),
            _ => true,
        }
    }
}

/// `entries` with `value` under `key`: in place of the entry with that
/// key, or at the end where there is none.
pub open spec fn put(entries: Seq<(Seq<char>, ValueView)>, key: Seq<char>, value: ValueView) -> Seq<
    (Seq<char>, ValueView),
> {
    match position(entries, key, 0) {
        Some(i) => entries.update(i, (key, value)),
        None => entries.push((key, value)),
    }
}

/// The entries of `existing` whose keys `incoming` does not hold.
pub open spec fn remaining(
    existing: Seq<(Seq<char>, ValueView)>,
    incoming: Seq<(Seq<char>, ValueView)>,
) -> Seq<(Seq<char>, ValueView)>
    decreases existing.len(),
{
    if existing.len() == 0 {
        Seq::empty()
    } else {
        let r = remaining(existing.drop_last(), incoming);
        if position(incoming, existing.last().0, 0) is None {
            r.push(existing.last())
        } else {
            r
        }
    }
}

/// The union of two objects in which `incoming` wins each key that both
/// hold: the entries of `incoming`, then those of `existing` under other
/// keys.
pub open spec fn merged(
    incoming: Seq<(Seq<char>, ValueView)>,
    existing: Seq<(Seq<char>, ValueView)>,
) -> Seq<(Seq<char>, ValueView)> {
    incoming + remaining(existing, incoming)
}

/// The value that a key keeps when `incoming` meets `existing` under it.
/// Two objects merge in merge mode, two arrays are concatenated in
/// array-nested mode, `incoming` first; otherwise `existing` stays.
pub open spec fn combined(mode: Mode, incoming: ValueView, existing: ValueView) -> ValueView {
    match mode {
        Mode::Merge => match (incoming, existing) {
            (ValueView::Object(a), ValueView::Object(b)) => ValueView::Object(merged(a, b)),
            _ => existing,
        },
        Mode::ArrayNested => match (incoming, existing) {
            (ValueView::Array(a), ValueView::Array(b)) => ValueView::Array(a + b),
            _ => existing,
        },
    }
}

/// `object` after the entry `key`, `value` was placed in it: the entry
/// comes first, with `value` combined with what `object` held under `key`.
pub open spec fn placed(
    mode: Mode,
    key: Seq<char>,
    value: ValueView,
    object: Seq<(Seq<char>, ValueView)>,
) -> Seq<(Seq<char>, ValueView)> {
    match position(object, key, 0) {
        Some(i) => seq![(key, combined(mode, value, object[i].1))] + object.remove(i),
        None => seq![(key, value)] + object,
    }
}

/// The object that the entries of a block fold into: the entries are
/// placed one by one, the last of them first.
pub open spec fn folded(mode: Mode, pairs: Seq<(Seq<char>, ValueView)>) -> Seq<(Seq<char>, ValueView)>
    decreases pairs.len(),
{
    if pairs.len() == 0 {
        Seq::empty()
    } else {
        placed(mode, pairs[0].0, pairs[0].1, folded(mode, pairs.drop_first()))
    }
}

/// `inner` under the labels, the last label innermost: each label makes
/// an object with one entry, whose value in array-nested mode is an array
/// of one item.
pub open spec fn wrapped(mode: Mode, labels: Seq<Seq<char>>, inner: ValueView) -> ValueView
    decreases labels.len(),
{
    if labels.len() == 0 {
        inner
    } else {
        let child = wrapped(mode, labels.drop_first(), inner);
        ValueView::Object(
            seq![(
                labels[0],
                match mode {
                    Mode::Merge => child,
                    Mode::ArrayNested => ValueView::Array(seq![child]),
                },
            )],
        )
    }
}

/// The value of a block with the labels `labels` and the body `inner`;
/// in array-nested mode an array of one item.
pub open spec fn block_value(mode: Mode, labels: Seq<Seq<char>>, inner: ValueView) -> ValueView {
    match mode {
        Mode::Merge => wrapped(mode, labels, inner),
        Mode::ArrayNested => ValueView::Array(seq![wrapped(mode, labels, inner)]),
    }
}

/// What `position` finds is the first entry with the key.
pub proof fn lemma_position(entries: Seq<(Seq<char>, ValueView)>, key: Seq<char>, from: int)
    requires
        0 <= from,
    ensures
        match position(entries, key, from) {
            Some(i) => from <= i < entries.len() && entries[i].0 == key && forall|j: int|
                from <= j < i ==> (#[trigger] entries[j]).0 != key,
            None => forall|j: int| from <= j < entries.len() ==> (#[trigger] entries[j]).0 != key,
        },
    decreases entries.len() - from,
{
    if from < entries.len() && entries[from].0 != key {
        lemma_position(entries, key, from + 1);
    }
}

/// `lookup` finds a value exactly under the keys that the entries hold.
pub proof fn lemma_lookup_has_key(entries: Seq<(Seq<char>, ValueView)>, key: Seq<char>)
    ensures
        lookup(entries, key) is Some <==> has_key(entries, key),
{
    lemma_position(entries, key, 0);
    if let Some(i) = position(entries, key, 0) {
        assert(entries[i].0 == key);
    }
}

/// Looking up in entries with one more at the end: what was found
/// before, else the new entry where it has the key.
pub proof fn lemma_lookup_push(
    entries: Seq<(Seq<char>, ValueView)>,
    last: (Seq<char>, ValueView),
    key: Seq<char>,
)
    ensures
        lookup(entries.push(last), key) == match lookup(entries, key) {
            Some(v) => Some(v),
            None => if last.0 == key {
                Some(last.1)
            } else {
                None
            },
        },
{
    let more = entries.push(last);
    lemma_position(entries, key, 0);
    lemma_position(more, key, 0);
    match position(entries, key, 0) {
        Some(i) => {
            assert(more[i] == entries[i]);
            if let Some(j) = position(more, key, 0) {
                if j < i {
                    assert(more[j] == entries[j]);
                }
            }
        },
        None => {
            if let Some(j) = position(more, key, 0) {
                if j < entries.len() {
                    assert(more[j] == entries[j]);
                }
            } else {
                assert(more[entries.len() as int] == last);
            }
        },
    }
}

/// Looking up in two sequences of entries, one after the other: what the
/// first holds, else what the second holds.
pub proof fn lemma_lookup_add(
    first: Seq<(Seq<char>, ValueView)>,
    second: Seq<(Seq<char>, ValueView)>,
    key: Seq<char>,
)
    ensures
        lookup(first + second, key) == match lookup(first, key) {
            Some(v) => Some(v),
            None => lookup(second, key),
        },
    decreases second.len(),
{
    if second.len() == 0 {
        assert(first + second =~= first);
    } else {
        let init = second.drop_last();
        assert(second =~= init.push(second.last()));
        assert(first + second =~= (first + init).push(second.last()));
        lemma_lookup_add(first, init, key);
        lemma_lookup_push(first + init, second.last(), key);
        lemma_lookup_push(init, second.last(), key);
    }
}

/// What `remaining` keeps under a key: nothing where `incoming` holds the
/// key, else what `existing` holds.
pub proof fn lemma_remaining_lookup(
    existing: Seq<(Seq<char>, ValueView)>,
    incoming: Seq<(Seq<char>, ValueView)>,
    key: Seq<char>,
)
    ensures
        lookup(remaining(existing, incoming), key) == if lookup(incoming, key) is Some {
            None
        } else {
            lookup(existing, key)
        },
    decreases existing.len(),
{
    if existing.len() > 0 {
        let init = existing.drop_last();
        let last = existing.last();
        assert(existing =~= init.push(last));
        lemma_remaining_lookup(init, incoming, key);
        lemma_lookup_push(init, last, key);
        if position(incoming, last.0, 0) is None {
            lemma_lookup_push(remaining(init, incoming), last, key);
        }
    }
}

/// The union of two objects holds under each key what `incoming` holds
/// there, else what `existing` holds.
pub proof fn lemma_merged_lookup(
    incoming: Seq<(Seq<char>, ValueView)>,
    existing: Seq<(Seq<char>, ValueView)>,
    key: Seq<char>,
)
    ensures
        lookup(merged(incoming, existing), key) == match lookup(incoming, key) {
            Some(v) => Some(v),
            None => lookup(existing, key),
        },
{
    lemma_lookup_add(incoming, remaining(existing, incoming), key);
    lemma_remaining_lookup(existing, incoming, key);
}

/// Whether `entries` are those of a well-formed object.
pub open spec fn entries_wf(entries: Seq<(Seq<char>, ValueView)>) -> bool {
    distinct_keys(entries) && forall|i: int| 0 <= i < entries.len() ==> (#[trigger] entries[i]).1.wf()
}

/// `put` keeps an object well formed.
pub proof fn lemma_put_wf(entries: Seq<(Seq<char>, ValueView)>, key: Seq<char>, value: ValueView)
    requires
        entries_wf(entries),
        value.wf(),
    ensures
        entries_wf(put(entries, key, value)),
        lookup(put(entries, key, value), key) == Some(value),
{
    lemma_position(entries, key, 0);
    let r = put(entries, key, value);
    lemma_position(r, key, 0);
    match position(entries, key, 0) {
        Some(i) => {
            assert(r[i].0 == key);
            assert forall|a: int, b: int| 0 <= a < b < r.len() implies (#[trigger] r[a]).0 != (
            #[trigger] r[b]).0 by {
                assert(r[a].0 == entries[a].0 && r[b].0 == entries[b].0);
            }
            assert forall|a: int| 0 <= a < r.len() implies (#[trigger] r[a]).1.wf() by {
                if a != i {
                    assert(r[a] == entries[a]);
                }
            }
        },
        None => {
            assert(r[entries.len() as int].0 == key);
            assert forall|a: int, b: int| 0 <= a < b < r.len() implies (#[trigger] r[a]).0 != (
            #[trigger] r[b]).0 by {
                assert(r[a] == entries[a]);
                if b < entries.len() {
                    assert(r[b] == entries[b]);
                }
            }
            assert forall|a: int| 0 <= a < r.len() implies (#[trigger] r[a]).1.wf() by {
                if a < entries.len() {
                    assert(r[a] == entries[a]);
                }
            }
        },
    }
}

/// What `remaining` keeps are well-formed entries of `existing` under
/// keys that `incoming` does not hold.
pub proof fn lemma_remaining(
    existing: Seq<(Seq<char>, ValueView)>,
    incoming: Seq<(Seq<char>, ValueView)>,
)
    requires
        entries_wf(existing),
    ensures
        entries_wf(remaining(existing, incoming)),
        forall|x: int|
            0 <= x < remaining(existing, incoming).len() ==> has_key(
                existing,
                (#[trigger] remaining(existing, incoming)[x]).0,
            ) && !has_key(incoming, remaining(existing, incoming)[x].0),
    decreases existing.len(),
{
    let r = remaining(existing, incoming);
    if existing.len() > 0 {
        let init = existing.drop_last();
        let last = existing.last();
        let q = remaining(init, incoming);
        assert forall|i: int| 0 <= i < init.len() implies init[i] == existing[i] by {}
        assert(entries_wf(init)) by {
            assert forall|a: int, b: int| 0 <= a < b < init.len() implies (#[trigger] init[a]).0 != (
            #[trigger] init[b]).0 by {
                assert(init[a] == existing[a] && init[b] == existing[b]);
            }
            assert forall|a: int| 0 <= a < init.len() implies (#[trigger] init[a]).1.wf() by {
                assert(init[a] == existing[a]);
            }
        }
        lemma_remaining(init, incoming);
        lemma_lookup_has_key(incoming, last.0);
        assert forall|x: int| 0 <= x < q.len() implies has_key(existing, (#[trigger] q[x]).0)
            && q[x].0 != last.0 by {
            assert(has_key(init, q[x].0));
            let y = choose|y: int| 0 <= y < init.len() && (#[trigger] init[y]).0 == q[x].0;
            assert(existing[y].0 == q[x].0);
            assert(existing[y].0 != existing[existing.len() - 1].0);
        }
        if position(incoming, last.0, 0) is None {
            assert(r == q.push(last));
            assert(existing[existing.len() - 1].0 == last.0);
            assert forall|a: int, b: int| 0 <= a < b < r.len() implies (#[trigger] r[a]).0 != (
            #[trigger] r[b]).0 by {
                assert(r[a] == q[a]);
                if b < q.len() {
                    assert(r[b] == q[b]);
                }
            }
            assert forall|a: int| 0 <= a < r.len() implies (#[trigger] r[a]).1.wf() by {
                if a < q.len() {
                    assert(r[a] == q[a]);
                }
            }
            assert forall|x: int| 0 <= x < r.len() implies has_key(existing, (#[trigger] r[x]).0)
                && !has_key(incoming, r[x].0) by {
                if x < q.len() {
                    assert(r[x] == q[x]);
                }
            }
        } else {
            assert(r == q);
        }
    }
}

/// The union of two well-formed objects is well formed.
pub proof fn lemma_merged_wf(
    incoming: Seq<(Seq<char>, ValueView)>,
    existing: Seq<(Seq<char>, ValueView)>,
)
    requires
        entries_wf(incoming),
        entries_wf(existing),
    ensures
        entries_wf(merged(incoming, existing)),
{
    let q = remaining(existing, incoming);
    let r = merged(incoming, existing);
    lemma_remaining(existing, incoming);
    assert forall|a: int, b: int| 0 <= a < b < r.len() implies (#[trigger] r[a]).0 != (#[trigger] r[b]).0 by {
        if b < incoming.len() {
            assert(r[a] == incoming[a] && r[b] == incoming[b]);
        } else if a >= incoming.len() {
            assert(r[a] == q[a - incoming.len()] && r[b] == q[b - incoming.len()]);
        } else {
            assert(r[a] == incoming[a] && r[b] == q[b - incoming.len()]);
            assert(!has_key(incoming, q[b - incoming.len()].0));
        }
    }
    assert forall|a: int| 0 <= a < r.len() implies (#[trigger] r[a]).1.wf() by {
        if a < incoming.len() {
            assert(r[a] == incoming[a]);
        } else {
            assert(r[a] == q[a - incoming.len()]);
        }
    }
}

/// Combining two well-formed values gives a well-formed value.
pub proof fn lemma_combined_wf(mode: Mode, incoming: ValueView, existing: ValueView)
    requires
        incoming.wf(),
        existing.wf(),
    ensures
        combined(mode, incoming, existing).wf(),
{
    match (mode, incoming, existing) {
        (Mode::Merge, ValueView::Object(a), ValueView::Object(b)) => {
            lemma_merged_wf(a, b);
        },
        (Mode::ArrayNested, ValueView::Array(a), ValueView::Array(b)) => {
            assert forall|i: int| 0 <= i < (a + b).len() implies (#[trigger] (a + b)[i]).wf() by {
                if i < a.len() {
                    assert((a + b)[i] == a[i]);
                } else {
                    assert((a + b)[i] == b[i - a.len()]);
                }
            }
        },
        _ => {},
    }
}

/// Placing a well-formed value keeps an object well formed.
pub proof fn lemma_placed_wf(
    mode: Mode,
    key: Seq<char>,
    value: ValueView,
    object: Seq<(Seq<char>, ValueView)>,
)
    requires
        entries_wf(object),
        value.wf(),
    ensures
        entries_wf(placed(mode, key, value, object)),
{
    lemma_position(object, key, 0);
    let r = placed(mode, key, value, object);
    match position(object, key, 0) {
        Some(i) => {
            assert(object[i].1.wf());
            lemma_combined_wf(mode, value, object[i].1);
            let rest = object.remove(i);
            assert forall|x: int| 0 <= x < rest.len() implies (#[trigger] rest[x]).0 != key
                && rest[x].1.wf() by {
                if x < i {
                    assert(rest[x] == object[x]);
                } else {
                    assert(rest[x] == object[x + 1]);
                }
            }
            assert forall|a: int, b: int| 0 <= a < b < r.len() implies (#[trigger] r[a]).0 != (
            #[trigger] r[b]).0 by {
                assert(r[b] == rest[b - 1]);
                if a > 0 {
                    assert(r[a] == rest[a - 1]);
                    let x = if a - 1 < i { a - 1 } else { a };
                    let y = if b - 1 < i { b - 1 } else { b };
                    assert(rest[a - 1] == object[x] && rest[b - 1] == object[y]);
                }
            }
            assert forall|a: int| 0 <= a < r.len() implies (#[trigger] r[a]).1.wf() by {
                if a > 0 {
                    assert(r[a] == rest[a - 1]);
                }
            }
        },
        None => {
            assert forall|a: int, b: int| 0 <= a < b < r.len() implies (#[trigger] r[a]).0 != (
            #[trigger] r[b]).0 by {
                assert(r[b] == object[b - 1]);
                if a > 0 {
                    assert(r[a] == object[a - 1]);
                }
            }
            assert forall|a: int| 0 <= a < r.len() implies (#[trigger] r[a]).1.wf() by {
                if a > 0 {
                    assert(r[a] == object[a - 1]);
                }
            }
        },
    }
}

/// Entries with well-formed values fold into a well-formed object.
pub proof fn lemma_folded_wf(mode: Mode, pairs: Seq<(Seq<char>, ValueView)>)
    requires
        forall|i: int| 0 <= i < pairs.len() ==> (#[trigger] pairs[i]).1.wf(),
    ensures
        entries_wf(folded(mode, pairs)),
    decreases pairs.len(),
{
    if pairs.len() > 0 {
        let rest = pairs.drop_first();
        assert forall|i: int| 0 <= i < rest.len() implies (#[trigger] rest[i]).1.wf() by {
            assert(rest[i] == pairs[i + 1]);
        }
        lemma_folded_wf(mode, rest);
        lemma_placed_wf(mode, pairs[0].0, pairs[0].1, folded(mode, rest));
    }
}

/// A block with a well-formed body has a well-formed value.
pub proof fn lemma_block_value_wf(mode: Mode, labels: Seq<Seq<char>>, inner: ValueView)
    requires
        inner.wf(),
    ensures
        wrapped(mode, labels, inner).wf(),
        block_value(mode, labels, inner).wf(),
    decreases labels.len(),
{
    if labels.len() > 0 {
        lemma_block_value_wf(mode, labels.drop_first(), inner);
        let child = wrapped(mode, labels.drop_first(), inner);
        let items = seq![child];
        assert(items[0].wf());
        assert(ValueView::Array(items).wf());
        let value = match mode {
            Mode::Merge => child,
            Mode::ArrayNested => ValueView::Array(items),
        };
        let entries = seq![(labels[0], value)];
        assert(entries[0].1.wf());
        assert(entries_wf(entries));
        assert(wrapped(mode, labels, inner) == ValueView::Object(entries));
    }
    let outer = seq![wrapped(mode, labels, inner)];
    assert(outer[0].wf());
    assert(ValueView::Array(outer).wf());
}

/// The first entry's key comes first in the object that the entries fold
/// into.
pub proof fn lemma_folded_first(mode: Mode, pairs: Seq<(Seq<char>, ValueView)>)
    requires
        pairs.len() > 0,
    ensures
        folded(mode, pairs).len() > 0,
        folded(mode, pairs)[0].0 == pairs[0].0,
{
}

/// An object that entries fold into holds exactly the keys of the entries.
pub proof fn lemma_folded_keys(mode: Mode, pairs: Seq<(Seq<char>, ValueView)>, key: Seq<char>)
    ensures
        has_key(folded(mode, pairs), key) <==> has_key(pairs, key),
    decreases pairs.len(),
{
    if pairs.len() > 0 {
        let rest = pairs.drop_first();
        let object = folded(mode, rest);
        let r = folded(mode, pairs);
        lemma_folded_keys(mode, rest, key);
        lemma_position(object, pairs[0].0, 0);
        assert(r[0].0 == pairs[0].0);
        if has_key(r, key) {
            let x = choose|x: int| 0 <= x < r.len() && (#[trigger] r[x]).0 == key;
            if x > 0 {
                match position(object, pairs[0].0, 0) {
                    Some(i) => {
                        let y = if x - 1 < i { x - 1 } else { x };
                        assert(r[x] == object.remove(i)[x - 1]);
                        assert(object[y].0 == key);
                    },
                    None => {
                        assert(object[x - 1].0 == key);
                    },
                }
                let z = choose|z: int| 0 <= z < rest.len() && (#[trigger] rest[z]).0 == key;
                assert(pairs[z + 1].0 == key);
            } else {
                assert(pairs[0].0 == key);
            }
        }
        if has_key(pairs, key) {
            let x = choose|x: int| 0 <= x < pairs.len() && (#[trigger] pairs[x]).0 == key;
            if x > 0 {
                assert(rest[x - 1].0 == key);
                let y = choose|y: int| 0 <= y < object.len() && (#[trigger] object[y]).0 == key;
                match position(object, pairs[0].0, 0) {
                    Some(i) => {
                        if y == i {
                            assert(r[0].0 == key);
                        } else {
                            let z = if y < i { y } else { y - 1 };
                            assert(object.remove(i)[z] == object[y]);
                            assert(r[z + 1].0 == key);
                        }
                    },
                    None => {
                        assert(r[y + 1].0 == key);
                    },
                }
            } else {
                assert(r[0].0 == key);
            }
        }
    }
}

/// A block with one label is an object with one entry under it.
pub proof fn lemma_wrapped_one(mode: Mode, label: Seq<char>, inner: ValueView)
    ensures
        wrapped(mode, seq![label], inner) == ValueView::Object(
            seq![
                (
                    label,
                    match mode {
                        Mode::Merge => inner,
                        Mode::ArrayNested => ValueView::Array(seq![inner]),
                    },
                ),
            ],
        ),
{
    let none = Seq::<Seq<char>>::empty();
    assert(seq![label].drop_first() =~= none);
    assert(wrapped(mode, none, inner) == inner);
    assert(seq![label][0] == label);
}

/// In merge mode two blocks with one key and the different labels `x`
/// and `y` fold into one entry, whose object holds the first block's
/// body under `x` and the second's under `y`.
pub proof fn lemma_two_blocks_merge(
    key: Seq<char>,
    x: Seq<char>,
    first: ValueView,
    y: Seq<char>,
    second: ValueView,
)
    requires
        x != y,
    ensures
        folded(
            Mode::Merge,
            seq![
                (key, block_value(Mode::Merge, seq![x], first)),
                (key, block_value(Mode::Merge, seq![y], second)),
            ],
        ) == seq![(key, ValueView::Object(seq![(x, first), (y, second)]))],
{
    let mode = Mode::Merge;
    let a = seq![(x, first)];
    let b = seq![(y, second)];
    lemma_wrapped_one(mode, x, first);
    lemma_wrapped_one(mode, y, second);
    assert(block_value(mode, seq![x], first) == ValueView::Object(a));
    assert(block_value(mode, seq![y], second) == ValueView::Object(b));
    let p = (key, ValueView::Object(a));
    let q = (key, ValueView::Object(b));
    let pairs = seq![p, q];
    assert(pairs.drop_first() =~= seq![q]);
    assert(seq![q].drop_first() =~= Seq::<(Seq<char>, ValueView)>::empty());
    assert(folded(mode, Seq::<(Seq<char>, ValueView)>::empty()) =~= Seq::empty());
    assert(folded(mode, seq![q]) =~= seq![q]);
    assert(position(seq![q], key, 0) == Some(0int));
    assert(b.drop_last() =~= Seq::<(Seq<char>, ValueView)>::empty());
    assert(position(a, y, 0) is None) by {
        assert(position(a, y, 1) is None);
    }
    assert(remaining(Seq::<(Seq<char>, ValueView)>::empty(), a) =~= Seq::empty());
    assert(b.last() == (y, second));
    assert(remaining(b, a) =~= b);
    assert(merged(a, b) =~= seq![(x, first), (y, second)]);
    assert(seq![q].remove(0) =~= Seq::<(Seq<char>, ValueView)>::empty());
    assert(folded(mode, pairs) =~= seq![(key, ValueView::Object(seq![(x, first), (y, second)]))]);
}

/// In array-nested mode two blocks with one key fold into one entry,
/// whose array holds the two blocks in their order.
pub proof fn lemma_two_blocks_nest(
    key: Seq<char>,
    x: Seq<char>,
    first: ValueView,
    y: Seq<char>,
    second: ValueView,
)
    ensures
        folded(
            Mode::ArrayNested,
            seq![
                (key, block_value(Mode::ArrayNested, seq![x], first)),
                (key, block_value(Mode::ArrayNested, seq![y], second)),
            ],
        ) == seq![
            (
                key,
                ValueView::Array(
                    seq![
                        wrapped(Mode::ArrayNested, seq![x], first),
                        wrapped(Mode::ArrayNested, seq![y], second),
                    ],
                ),
            ),
        ],
        wrapped(Mode::ArrayNested, seq![x], first) == ValueView::Object(
            seq![(x, ValueView::Array(seq![first]))],
        ),
        wrapped(Mode::ArrayNested, seq![y], second) == ValueView::Object(
            seq![(y, ValueView::Array(seq![second]))],
        ),
{
    let mode = Mode::ArrayNested;
    lemma_wrapped_one(mode, x, first);
    lemma_wrapped_one(mode, y, second);
    let a = wrapped(mode, seq![x], first);
    let b = wrapped(mode, seq![y], second);
    let p = (key, ValueView::Array(seq![a]));
    let q = (key, ValueView::Array(seq![b]));
    let pairs = seq![p, q];
    assert(pairs.drop_first() =~= seq![q]);
    assert(seq![q].drop_first() =~= Seq::<(Seq<char>, ValueView)>::empty());
    assert(folded(mode, Seq::<(Seq<char>, ValueView)>::empty()) =~= Seq::empty());
    assert(folded(mode, seq![q]) =~= seq![q]);
    assert(position(seq![q], key, 0) == Some(0int));
    assert(seq![a] + seq![b] =~= seq![a, b]);
    assert(seq![q].remove(0) =~= Seq::<(Seq<char>, ValueView)>::empty());
    assert(folded(mode, pairs) =~= seq![(key, ValueView::Array(seq![a, b]))]);
}

} // verus!
