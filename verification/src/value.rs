//! The decoded value tree and its mathematical model.

use vstd::prelude::*;
use vstd::utf8::encode_utf8;

verus! {

/// A decoded value.
///
/// A dictionary is held as its entries in key order: keys strictly ascending
/// by the bytes of their UTF-8 form (see [`BVal::wf`]).
#[derive(Debug, PartialEq, Eq)]
pub enum BVal {
    BInt(i64),
    BStr(String),
    BList(Vec<BVal>),
    BDict(Vec<(String, BVal)>),
}

/// The mathematical model of a value. Text is modelled by its UTF-8 bytes,
/// a dictionary by the sequence of its entries.
pub enum Value {
    Int(int),
    Str(Seq<u8>),
    List(Seq<Value>),
    Dict(Seq<(Seq<u8>, Value)>),
}

/// The model of a vector of values, item by item.
pub open spec fn list_model(items: Seq<BVal>) -> Seq<Value> {
    Seq::new(items.len(), |i: int| items[i]@)
}

/// The model of a dictionary entry: the bytes of the key, and the model of
/// the value.
pub open spec fn entry_model(entry: (String, BVal)) -> (Seq<u8>, Value)
    decreases entry,
{
    (encode_utf8(entry.0@), entry.1.view())
}

/// The model of a vector of dictionary entries, entry by entry.
pub open spec fn entries_model(entries: Seq<(String, BVal)>) -> Seq<(Seq<u8>, Value)> {
    Seq::new(entries.len(), |i: int| entry_model(entries[i]))
}

impl View for BVal {
    type V = Value;

    open spec fn view(&self) -> Value
        decreases self,
    {
        match self {
            BVal::BInt(n) => Value::Int(*n as int),
            BVal::BStr(s) => Value::Str(encode_utf8(s@)),
            BVal::BList(items) => Value::List(
                Seq::new(items@.len(), |i: int| if 0 <= i < items@.len() { items@[i].view() } else { Value::Int(0) }),
            ),
            BVal::BDict(entries) => Value::Dict(
                Seq::new(
                    entries@.len(),
                    |i: int| if 0 <= i < entries@.len() {
                        entry_model(entries@[i])
                    } else {
                        (Seq::empty(), Value::Int(0))
                    },
                ),
            ),
        }
    }
}

/// The model of a list is the model of its items.
pub proof fn lemma_list_view(items: Vec<BVal>)
    ensures
        BVal::BList(items)@ == Value::List(list_model(items@)),
{
    assert(BVal::BList(items)@->List_0 =~= list_model(items@));
}

/// The model of a dictionary is the model of its entries.
pub proof fn lemma_dict_view(entries: Vec<(String, BVal)>)
    ensures
        BVal::BDict(entries)@ == Value::Dict(entries_model(entries@)),
{
    assert(BVal::BDict(entries)@->Dict_0 =~= entries_model(entries@));
}

/// Strict lexicographic order on byte sequences, compared from index `i` on.
pub open spec fn bytes_lt_from(a: Seq<u8>, b: Seq<u8>, i: int) -> bool
    decreases a.len() - i,
{
    if i < 0 || i >= b.len() {
        false
    } else if i >= a.len() {
        true
    } else if a[i] != b[i] {
        a[i] < b[i]
    } else {
        bytes_lt_from(a, b, i + 1)
    }
}

/// Strict lexicographic order on byte sequences: the order of dictionary keys.
pub open spec fn bytes_lt(a: Seq<u8>, b: Seq<u8>) -> bool {
    bytes_lt_from(a, b, 0)
}

/// The keys of `e` are strictly ascending, so no key occurs twice.
pub open spec fn entries_sorted(e: Seq<(Seq<u8>, Value)>) -> bool {
    forall|i: int, j: int| 0 <= i < j < e.len() ==> bytes_lt(#[trigger] e[i].0, #[trigger] e[j].0)
}

/// Every dictionary in `v`, at any depth, has strictly ascending keys.
pub open spec fn value_wf(v: Value) -> bool
    decreases v,
{
    match v {
        Value::Int(_) => true,
        Value::Str(_) => true,
        Value::List(items) => forall|i: int| 0 <= i < items.len() ==> value_wf(#[trigger] items[i]),
        Value::Dict(e) => entries_sorted(e) && forall|i: int|
            0 <= i < e.len() ==> value_wf((#[trigger] e[i]).1),
    }
}

impl BVal {
    /// Well-formedness: every dictionary in the tree is in strict key order.
    pub open spec fn wf(&self) -> bool {
        value_wf(self@)
    }
}

} // verus!
