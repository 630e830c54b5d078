//! The total order on nested values: integers by size, lists element by
//! element, and an integer against a list as the list of that one integer.

use vstd::prelude::*;
use std::cmp::Ordering;
use crate::value::{Item, Value, values_of, lemma_values_of};

verus! {

/// The order of two natural numbers.
pub open spec fn compare_nat(x: nat, y: nat) -> Ordering {
    if x < y {
        Ordering::Less
    } else if x == y {
        Ordering::Equal
    } else {
        Ordering::Greater
    }
}

/// A value read as a list: a list is its items, an integer is the list of
/// itself alone.
pub open spec fn elements(v: Value) -> Seq<Value> {
    match v {
        Value::Int(_) => seq![v],
        Value::List(items) => items,
    }
}

/// The order of two values.
///
/// Two integers compare as numbers. In every other case both are read as
/// lists, and the lists are compared from their first elements on.
pub open spec fn compare(a: Value, b: Value) -> Ordering
    decreases a, b, 1nat, 0nat,
{
    match (a, b) {
        (Value::Int(x), Value::Int(y)) => compare_nat(x, y),
        _ => compare_from(a, b, 0),
    }
}

/// The order of two values read as lists, at least one of which is a list,
/// when the elements before `i` are pairwise equal in order: the first pair
/// of elements from `i` on that is not equal decides, and where one list ends
/// first, the shorter is less.
pub open spec fn compare_from(a: Value, b: Value, i: int) -> Ordering
    recommends
        a is List || b is List,
    decreases a, b, 0nat, elements(a).len() - i,
{
    let xs = elements(a);
    let ys = elements(b);
    if i < 0 || i >= xs.len() || i >= ys.len() || (a is Int && b is Int) {
        compare_nat(xs.len(), ys.len())
    } else {
        let first = compare(xs[i], ys[i]);
        if first != Ordering::Equal {
            first
        } else {
            compare_from(a, b, i + 1)
        }
    }
}

/// Compares two lists of items element by element. `a` and `b` are the values
/// that the two lists are the elements of.
fn cmp_lists(xs: &Vec<Item>, ys: &Vec<Item>, Ghost(a): Ghost<Value>, Ghost(b): Ghost<Value>) -> (r:
    Ordering)
    requires
        values_of(xs@) == elements(a),
        values_of(ys@) == elements(b),
        a is List || b is List,
    ensures
        r == compare_from(a, b, 0),
    decreases a, b, 0nat,
{
    proof {
        lemma_values_of(xs@);
        lemma_values_of(ys@);
    }
    let shorter: usize = if xs.len() < ys.len() {
        xs.len()
    } else {
        ys.len()
    };
    let mut i: usize = 0;
    let ghost mut k: int = 0;
    while i < shorter
        invariant
            k == i,
            i <= shorter,
            shorter <= xs@.len(),
            shorter <= ys@.len(),
            shorter == xs@.len() || shorter == ys@.len(),
            values_of(xs@) == elements(a),
            values_of(ys@) == elements(b),
            forall|j: int| 0 <= j < xs@.len() ==> #[trigger] values_of(xs@)[j] == xs@[j]@,
            forall|j: int| 0 <= j < ys@.len() ==> #[trigger] values_of(ys@)[j] == ys@[j]@,
            a is List || b is List,
            compare_from(a, b, 0) == compare_from(a, b, k),
        decreases shorter - i,
    {
        assert(values_of(xs@)[k] == xs@[k]@);
        assert(values_of(ys@)[k] == ys@[k]@);
        let first = xs[i].cmp(&ys[i]);
        match first {
            Ordering::Equal => {},
            _ => {
                return first;
            },
        }
        i += 1;
        proof {
            k = k + 1;
        }
    }
    if xs.len() < ys.len() {
        Ordering::Less
    } else if xs.len() == ys.len() {
        Ordering::Equal
    } else {
        Ordering::Greater
    }
}

impl Item {
    /// The order of `self` and `other`.
    pub fn cmp(&self, other: &Item) -> (r: Ordering)
        ensures
            r == compare(self@, other@),
        decreases self@, other@, 1nat,
    {
        match self {
            Item::Integer(x) => match other {
                Item::Integer(y) => {
                    if *x < *y {
                        Ordering::Less
                    } else if *x == *y {
                        Ordering::Equal
                    } else {
                        Ordering::Greater
                    }
                },
                Item::List(ys) => {
                    let promoted: Vec<Item> = vec![Item::Integer(*x)];
                    assert(values_of(promoted@) =~= elements(self@));
                    cmp_lists(&promoted, ys, Ghost(self@), Ghost(other@))
                },
            },
            Item::List(xs) => match other {
                Item::Integer(y) => {
                    let promoted: Vec<Item> = vec![Item::Integer(*y)];
                    assert(values_of(promoted@) =~= elements(other@));
                    cmp_lists(xs, &promoted, Ghost(self@), Ghost(other@))
                },
                Item::List(ys) => cmp_lists(xs, ys, Ghost(self@), Ghost(other@)),
            },
        }
    }
}

impl PartialEq for Item {
    /// Whether the two items are equal in order. An integer and the list
    /// that holds it alone are equal in this sense, though they are not the
    /// same item.
    fn eq(&self, other: &Item) -> (r: bool) {
        match self.cmp(other) {
            Ordering::Equal => true,
            _ => false,
        }
    }
}

impl vstd::std_specs::cmp::PartialEqSpecImpl for Item {
    open spec fn obeys_eq_spec() -> bool {
        true
    }

    open spec fn eq_spec(&self, other: &Item) -> bool {
        compare(self@, other@) == Ordering::Equal
    }
}

impl Eq for Item {

}

impl PartialOrd for Item {
    /// The order of the two items, which is never undecided.
    fn partial_cmp(&self, other: &Item) -> (r: Option<Ordering>) {
        Some(self.cmp(other))
    }
}

impl vstd::std_specs::cmp::PartialOrdSpecImpl for Item {
    open spec fn obeys_partial_cmp_spec() -> bool {
        true
    }

    open spec fn partial_cmp_spec(&self, other: &Item) -> Option<Ordering> {
        Some(compare(self@, other@))
    }
}

/// The order seen from the other side.
pub open spec fn flip(o: Ordering) -> Ordering {
    match o {
        Ordering::Less => Ordering::Greater,
        Ordering::Equal => Ordering::Equal,
        Ordering::Greater => Ordering::Less,
    }
}

/// Every value is equal in order to itself.
pub proof fn lemma_compare_reflexive(a: Value)
    ensures
        compare(a, a) == Ordering::Equal,
    decreases a, 1nat, 0nat,
{
    if a is List {
        lemma_compare_from_reflexive(a, 0);
    }
}

proof fn lemma_compare_from_reflexive(a: Value, i: int)
    requires
        a is List,
    ensures
        compare_from(a, a, i) == Ordering::Equal,
    decreases a, 0nat, elements(a).len() - i,
{
    if 0 <= i < elements(a).len() {
        lemma_compare_reflexive(elements(a)[i]);
        lemma_compare_from_reflexive(a, i + 1);
    }
}

/// Swapping the two values reverses the order: `Less` becomes `Greater`,
/// `Greater` becomes `Less`, and `Equal` stays.
pub proof fn lemma_compare_flip(a: Value, b: Value)
    ensures
        compare(b, a) == flip(compare(a, b)),
    decreases a, b, 1nat, 0nat,
{
    if a is List || b is List {
        lemma_compare_from_flip(a, b, 0);
    }
}

proof fn lemma_compare_from_flip(a: Value, b: Value, i: int)
    requires
        a is List || b is List,
    ensures
        compare_from(b, a, i) == flip(compare_from(a, b, i)),
    decreases a, b, 0nat, elements(a).len() - i,
{
    let xs = elements(a);
    let ys = elements(b);
    if 0 <= i < xs.len() && i < ys.len() {
        lemma_compare_flip(xs[i], ys[i]);
        if compare(xs[i], ys[i]) == Ordering::Equal {
            lemma_compare_from_flip(a, b, i + 1);
        }
    }
}

/// An integer is equal in order to the list that holds it alone.
pub proof fn lemma_promotion_equal(n: nat)
    ensures
        compare(Value::Int(n), Value::List(seq![Value::Int(n)])) == Ordering::Equal,
        compare(Value::List(seq![Value::Int(n)]), Value::Int(n)) == Ordering::Equal,
{
    let a = Value::Int(n);
    let b = Value::List(seq![a]);
    assert(elements(a)[0] == a && elements(b)[0] == a);
    assert(compare(a, a) == Ordering::Equal);
    assert(compare_from(a, b, 1) == Ordering::Equal);
    assert(compare_from(a, b, 0) == Ordering::Equal);
    lemma_compare_flip(a, b);
}

/// Against any value, an integer compares as the list that holds it alone
/// does.
pub proof fn lemma_promotion(n: nat, b: Value)
    ensures
        compare(Value::Int(n), b) == compare(Value::List(seq![Value::Int(n)]), b),
        compare(b, Value::Int(n)) == compare(b, Value::List(seq![Value::Int(n)])),
{
    let a = Value::Int(n);
    let l = Value::List(seq![a]);
    assert(elements(a) =~= elements(l));
    match b {
        Value::Int(m) => {
            assert(compare_from(l, b, 1) == Ordering::Equal);
            assert(compare_from(l, b, 0) == compare(a, b));
        },
        Value::List(ys) => {
            assert(compare_from(a, b, 1) == compare_from(l, b, 1));
            assert(compare_from(a, b, 0) == compare_from(l, b, 0));
        },
    }
    lemma_compare_flip(a, b);
    lemma_compare_flip(l, b);
}

/// The empty list is the least value: it is equal in order to itself alone,
/// and less than every other value.
pub proof fn lemma_empty_list_least(b: Value)
    ensures
        compare(Value::List(Seq::empty()), b) == if b == Value::List(Seq::<Value>::empty()) {
            Ordering::Equal
        } else {
            Ordering::Less
        },
{
    let e = Value::List(Seq::<Value>::empty());
    assert(compare(e, b) == compare_from(e, b, 0));
    if let Value::List(ys) = b {
        if ys.len() == 0 {
            assert(ys =~= Seq::<Value>::empty());
        }
    }
}

/// The number of indices that two sequences share.
pub open spec fn shared_len(x: Seq<Value>, y: Seq<Value>) -> int {
    if x.len() < y.len() {
        x.len() as int
    } else {
        y.len() as int
    }
}

/// Between two lists, the first index at which the elements are not equal
/// in order decides: the order of the lists is the order of those elements.
pub proof fn lemma_first_difference(x: Seq<Value>, y: Seq<Value>, k: int)
    requires
        0 <= k < x.len(),
        k < y.len(),
        forall|i: int| 0 <= i < k ==> compare(x[i], y[i]) == Ordering::Equal,
        compare(x[k], y[k]) != Ordering::Equal,
    ensures
        compare(Value::List(x), Value::List(y)) == compare(x[k], y[k]),
{
    lemma_equal_before(x, y, k, 0);
}

/// Between two lists whose elements are equal in order at every index they
/// share, the lengths decide: the shorter list is less, and lists of one
/// length are equal.
pub proof fn lemma_no_difference(x: Seq<Value>, y: Seq<Value>)
    requires
        forall|i: int| 0 <= i < shared_len(x, y) ==> compare(x[i], y[i]) == Ordering::Equal,
    ensures
        compare(Value::List(x), Value::List(y)) == compare_nat(x.len(), y.len()),
{
    lemma_equal_before(x, y, shared_len(x, y), 0);
}

/// Where the elements from `i` up to `k` are pairwise equal in order, the
/// comparison from `i` on is the comparison from `k` on.
proof fn lemma_equal_before(x: Seq<Value>, y: Seq<Value>, k: int, i: int)
    requires
        0 <= i <= k,
        k <= x.len(),
        k <= y.len(),
        forall|j: int| 0 <= j < k ==> compare(x[j], y[j]) == Ordering::Equal,
    ensures
        compare_from(Value::List(x), Value::List(y), i) == compare_from(
            Value::List(x),
            Value::List(y),
            k,
        ),
    decreases k - i,
{
    if i < k {
        lemma_equal_before(x, y, k, i + 1);
    }
}

/// A list that is a strict prefix of another (the same elements at the
/// indices they share, and fewer of them) is less than it.
pub proof fn lemma_prefix_less(x: Seq<Value>, y: Seq<Value>)
    requires
        x.len() < y.len(),
        forall|i: int| 0 <= i < x.len() ==> x[i] == y[i],
    ensures
        compare(Value::List(x), Value::List(y)) == Ordering::Less,
        compare(Value::List(y), Value::List(x)) == Ordering::Greater,
{
    assert forall|i: int| 0 <= i < shared_len(x, y) implies compare(x[i], y[i])
        == Ordering::Equal by {
        lemma_compare_reflexive(x[i]);
    }
    lemma_no_difference(x, y);
    lemma_compare_flip(Value::List(x), Value::List(y));
}

/// The order of two values read as lists from index `i` on, also where both
/// are integers: an integer is then its own single element.
spec fn compare_rest(a: Value, b: Value, i: int) -> Ordering {
    if a is Int && b is Int {
        if i <= 0 {
            compare(a, b)
        } else {
            Ordering::Equal
        }
    } else {
        compare_from(a, b, i)
    }
}

/// `compare_rest` goes through the elements one index at a time.
proof fn lemma_compare_rest(a: Value, b: Value, i: int)
    requires
        0 <= i,
    ensures
        compare_rest(a, b, i) == if i >= elements(a).len() || i >= elements(b).len() {
            compare_nat(elements(a).len(), elements(b).len())
        } else if compare(elements(a)[i], elements(b)[i]) != Ordering::Equal {
            compare(elements(a)[i], elements(b)[i])
        } else {
            compare_rest(a, b, i + 1)
        },
{
}

/// The order is transitive: where `a` is not greater than `b` and `b` is not
/// greater than `c`, `a` is not greater than `c`, and it is equal to `c` only
/// where all three are equal in order.
pub proof fn lemma_compare_transitive(a: Value, b: Value, c: Value)
    requires
        compare(a, b) != Ordering::Greater,
        compare(b, c) != Ordering::Greater,
    ensures
        compare(a, c) == if compare(a, b) == Ordering::Equal && compare(b, c) == Ordering::Equal {
            Ordering::Equal
        } else {
            Ordering::Less
        },
    decreases a, b, c, 1nat, 0nat,
{
    if a is List || b is List || c is List {
        lemma_transitive_from(a, b, c, 0);
    }
}

proof fn lemma_transitive_from(a: Value, b: Value, c: Value, i: int)
    requires
        a is List || b is List || c is List,
        0 <= i,
        compare_rest(a, b, i) != Ordering::Greater,
        compare_rest(b, c, i) != Ordering::Greater,
    ensures
        compare_rest(a, c, i) == if compare_rest(a, b, i) == Ordering::Equal && compare_rest(
            b,
            c,
            i,
        ) == Ordering::Equal {
            Ordering::Equal
        } else {
            Ordering::Less
        },
    decreases a, b, c, 0nat, elements(a).len() - i,
{
    let xs = elements(a);
    let ys = elements(b);
    let zs = elements(c);
    lemma_compare_rest(a, b, i);
    lemma_compare_rest(b, c, i);
    lemma_compare_rest(a, c, i);
    if i < xs.len() && i < ys.len() && i < zs.len() {
        lemma_compare_transitive(xs[i], ys[i], zs[i]);
        if compare(xs[i], zs[i]) == Ordering::Equal {
            lemma_transitive_from(a, b, c, i + 1);
        }
    }
}

} // verus!
