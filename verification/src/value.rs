//! The data model: a nested value is either an integer or an ordered list of
//! nested values.

use vstd::prelude::*;

verus! {

/// The mathematical content of a nested value.
pub enum Value {
    /// A natural number.
    Int(nat),
    /// An ordered sequence of values.
    List(Seq<Value>),
}

/// A nested value as held in memory.
#[derive(Debug)]
pub enum Item {
    /// An unsigned integer.
    Integer(u64),
    /// An ordered list of items, which the list owns.
    List(Vec<Item>),
}

/// The contents of a sequence of items, element by element.
pub open spec fn values_of(items: Seq<Item>) -> Seq<Value>
    decreases items,
{
    Seq::new(
        items.len(),
        |i: int|
            if 0 <= i < items.len() {
                items[i].view()
            } else {
                Value::Int(0)
            },
    )
}

impl View for Item {
    type V = Value;

    open spec fn view(&self) -> Value
        decreases self,
    {
        match self {
            Item::Integer(n) => Value::Int(*n as nat),
            Item::List(items) => Value::List(values_of(items@)),
        }
    }
}

/// `values_of` has one value for each item, in the same order.
pub proof fn lemma_values_of(items: Seq<Item>)
    ensures
        values_of(items).len() == items.len(),
        forall|i: int| 0 <= i < items.len() ==> #[trigger] values_of(items)[i] == items[i]@,
{
}

/// Appending an item appends its value.
pub proof fn lemma_values_of_push(items: Seq<Item>, item: Item)
    ensures
        values_of(items.push(item)) == values_of(items).push(item@),
{
    assert(values_of(items.push(item)) =~= values_of(items).push(item@));
}

/// No items hold no values.
pub proof fn lemma_values_of_empty()
    ensures
        values_of(Seq::<Item>::empty()) == Seq::<Value>::empty(),
{
    assert(values_of(Seq::<Item>::empty()) =~= Seq::<Value>::empty());
}

/// Every integer in `v` fits in 64 bits.
pub open spec fn representable(v: Value) -> bool
    decreases v,
{
    match v {
        Value::Int(n) => n <= u64::MAX,
        Value::List(items) => forall|i: int|
            0 <= i < items.len() ==> representable(#[trigger] items[i]),
    }
}

/// The integers of an item in memory fit in 64 bits.
pub proof fn lemma_item_representable(item: Item)
    ensures
        representable(item@),
    decreases item,
{
    match item {
        Item::Integer(_) => {},
        Item::List(items) => {
            lemma_values_of(items@);
            assert forall|i: int| 0 <= i < items@.len() implies representable(
                #[trigger] values_of(items@)[i],
            ) by {
                lemma_item_representable(items@[i]);
            }
        },
    }
}

} // verus!
