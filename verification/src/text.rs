//! The textual form of a nested value: decimal integers, and lists in square
//! brackets with commas between their items, without any spaces.

use vstd::prelude::*;
use crate::parser::{CLOSE, COMMA, OPEN, ZERO};
use crate::value::{Item, Value, values_of, lemma_values_of};

verus! {

/// The ASCII digit for a number below ten.
pub open spec fn digit_byte(d: nat) -> u8
    recommends
        d < 10,
{
    (ZERO + d) as u8
}

/// The decimal digits of `n`, most significant first, without leading zeros.
pub open spec fn digits(n: nat) -> Seq<u8>
    decreases n,
{
    if n < 10 {
        seq![digit_byte(n)]
    } else {
        digits(n / 10).push(digit_byte(n % 10))
    }
}

/// The text of a value.
pub open spec fn render(v: Value) -> Seq<u8>
    decreases v,
{
    match v {
        Value::Int(n) => digits(n),
        Value::List(items) => seq![OPEN] + render_items(items) + seq![CLOSE],
    }
}

/// The texts of `items`, with a comma between each two neighbours.
pub open spec fn render_items(items: Seq<Value>) -> Seq<u8>
    decreases items,
{
    if items.len() == 0 {
        Seq::empty()
    } else if items.len() == 1 {
        render(items[0])
    } else {
        render_items(items.drop_last()) + seq![COMMA] + render(items.last())
    }
}

/// Appends the decimal digits of `n` to `out`.
fn write_number(n: u64, out: &mut Vec<u8>)
    ensures
        final(out)@ == old(out)@ + digits(n as nat),
    decreases n,
{
    if n >= 10 {
        write_number(n / 10, out);
    }
    let digit: u8 = (n % 10) as u8;
    out.push(ZERO + digit);
    assert(out@ =~= old(out)@ + digits(n as nat));
}

/// Appends the texts of the items of the list `item` to `out`, with a comma
/// between each two neighbours and without the brackets around them.
pub fn write_list(item: &Item, out: &mut Vec<u8>)
    requires
        item@ is List,
    ensures
        final(out)@ == old(out)@ + render_items(item@->List_0),
    decreases item, 0nat,
{
    match item {
        Item::Integer(_) => {},
        Item::List(items) => {
            let ghost values = values_of(items@);
            proof {
                lemma_values_of(items@);
            }
            let mut i: usize = 0;
            while i < items.len()
                invariant
                    i <= items.len(),
                    values == values_of(items@),
                    values.len() == items@.len(),
                    forall|j: int| 0 <= j < items@.len() ==> #[trigger] values[j] == items@[j]@,
                    item matches Item::List(list) && list == items,
                    out@ == old(out)@ + render_items(values.take(i as int)),
                decreases items.len() - i,
            {
                if i > 0 {
                    out.push(COMMA);
                }
                write_item(&items[i], out);
                proof {
                    let head = values.take(i as int);
                    let next = values.take(i + 1);
                    assert(next.drop_last() =~= head);
                    assert(next.last() == items@[i as int]@);
                    assert(out@ =~= old(out)@ + render_items(next));
                }
                i += 1;
            }
            assert(values.take(i as int) =~= values);
        },
    }
}

/// Appends the text of `item` to `out`.
pub fn write_item(item: &Item, out: &mut Vec<u8>)
    ensures
        final(out)@ == old(out)@ + render(item@),
    decreases item, 1nat,
{
    match item {
        Item::Integer(n) => {
            write_number(*n, out);
        },
        Item::List(_) => {
            out.push(OPEN);
            write_list(item, out);
            out.push(CLOSE);
            assert(out@ =~= old(out)@ + render(item@));
        },
    }
}

/// The text of `item`.
pub fn serialize(item: &Item) -> (text: Vec<u8>)
    ensures
        text@ == render(item@),
{
    let mut text: Vec<u8> = Vec::new();
    write_item(item, &mut text);
    assert(text@ =~= render(item@));
    text
}

} // verus!
