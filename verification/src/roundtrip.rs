//! Parsing undoes rendering: the text of a list is read back as that list.

use vstd::prelude::*;
use crate::parser::{append_to_top, digit_value, is_digit, parse_spec, ParseError, Scan};
use crate::parser::lemma_parse_gives_list;
use crate::parser::{CLOSE, COMMA, OPEN};
use crate::text::{digit_byte, digits, render, render_items};
use crate::value::{representable, Value};

verus! {

/// The state `s` once a complete list `v` was read in it: `v` is the last
/// item of the innermost open list, or the result where no list is open.
pub open spec fn receive(s: Scan, v: Value) -> Scan {
    if s.open.len() == 0 {
        Scan { done: Some(v), ..s }
    } else {
        Scan { open: append_to_top(s.open, v), ..s }
    }
}

/// Scanning two texts in a row is scanning the first, then the second from
/// where the first ended.
pub proof fn lemma_run_concat(s: Scan, a: Seq<u8>, b: Seq<u8>)
    ensures
        s.run(a + b) == match s.run(a) {
            Ok(t) => t.run(b),
            Err(e) => Err(e),
        },
    decreases a.len(),
{
    if a.len() == 0 {
        assert(a + b =~= b);
    } else {
        assert((a + b).skip(1) =~= a.skip(1) + b);
        match s.step(a[0]) {
            Ok(t) => lemma_run_concat(t, a.skip(1), b),
            Err(_) => {},
        }
    }
}

/// Scanning one byte is one step.
pub proof fn lemma_run_one(s: Scan, byte: u8)
    ensures
        s.run(seq![byte]) == s.step(byte),
{
    let bytes = seq![byte];
    assert(bytes.skip(1) =~= Seq::<u8>::empty());
    match s.step(byte) {
        Ok(t) => {
            assert(t.run(bytes.skip(1)) == Ok::<Scan, ParseError>(t));
        },
        Err(_) => {},
    }
}

/// The digits of a number that fits in 64 bits leave that number pending.
pub proof fn lemma_run_digits(s: Scan, n: nat)
    requires
        s.pending is None,
        n <= u64::MAX,
    ensures
        s.run(digits(n)) == Ok::<Scan, ParseError>(Scan { pending: Some(n), ..s }),
    decreases n,
{
    let last = digit_byte(n % 10);
    assert(is_digit(last) && digit_value(last) == n % 10);
    if n < 10 {
        lemma_run_one(s, last);
    } else {
        lemma_run_digits(s, n / 10);
        let t = Scan { pending: Some(n / 10), ..s };
        lemma_run_concat(s, digits(n / 10), seq![last]);
        lemma_run_one(t, last);
        assert(digits(n) =~= digits(n / 10) + seq![last]);
        assert((n / 10) * 10 + n % 10 == n);
    }
}

/// `frames` with `items` appended to its last list.
pub open spec fn extend_top(frames: Seq<Seq<Value>>, items: Seq<Value>) -> Seq<Seq<Value>>
    recommends
        frames.len() > 0,
{
    frames.drop_last().push(frames.last() + items)
}

/// Scanning the text of a list, where a list may begin, reads that list.
pub proof fn lemma_run_list(s: Scan, v: Value)
    requires
        s.pending is None,
        s.done is None,
        v is List,
        representable(v),
    ensures
        s.run(render(v)) == Ok::<Scan, ParseError>(receive(s, v)),
    decreases v, 0nat,
{
    let items = v->List_0;
    let inner = render_items(items);
    let opened = Scan { open: s.open.push(Seq::empty()), ..s };
    let filled = Scan { open: s.open.push(items), ..s };
    lemma_run_items(opened, items);
    let t = opened.run(inner).unwrap();
    assert(extend_top(opened.open, items) =~= filled.open);
    assert(t.flush() == Ok::<Scan, ParseError>(filled));
    assert(filled.open.drop_last() =~= s.open);
    assert(filled.open.last() == items);
    assert(v == Value::List(items));
    if s.open.len() == 0 {
        assert(s.open =~= Seq::empty());
    }
    assert(filled.close() == Ok::<Scan, ParseError>(receive(s, v)));
    assert(t.step(CLOSE) == Ok::<Scan, ParseError>(receive(s, v)));
    lemma_run_one(s, OPEN);
    lemma_run_one(t, CLOSE);
    lemma_run_concat(s, seq![OPEN], inner);
    lemma_run_concat(s, seq![OPEN] + inner, seq![CLOSE]);
}

/// Scanning the texts of `items` inside an open list hands them to that list,
/// the last of them at the next separator or closing bracket.
pub proof fn lemma_run_items(s: Scan, items: Seq<Value>)
    requires
        s.pending is None,
        s.done is None,
        s.open.len() > 0,
        forall|i: int| 0 <= i < items.len() ==> representable(#[trigger] items[i]),
    ensures
        s.run(render_items(items)) is Ok,
        s.run(render_items(items)).unwrap().flush() == Ok::<Scan, ParseError>(
            Scan { open: extend_top(s.open, items), ..s },
        ),
    decreases items, 0nat,
{
    if items.len() == 0 {
        assert(extend_top(s.open, items) =~= s.open);
    } else {
        let head = items.drop_last();
        let last = items.last();
        let before = Scan { open: extend_top(s.open, head), ..s };
        let after = Scan { open: extend_top(s.open, items), ..s };
        assert(append_to_top(before.open, last) =~= after.open) by {
            assert(head.push(last) =~= items);
            assert(s.open.last() + head.push(last) =~= (s.open.last() + head).push(last));
        }
        assert(representable(last));
        if items.len() == 1 {
            assert(before.open =~= s.open);
            lemma_run_element(s, last, after);
        } else {
            lemma_run_items(s, head);
            let t = s.run(render_items(head)).unwrap();
            lemma_run_concat(s, render_items(head), seq![COMMA]);
            lemma_run_one(t, COMMA);
            lemma_run_concat(s, render_items(head) + seq![COMMA], render(last));
            lemma_run_element(before, last, after);
        }
    }
}

/// Scanning the text of one element inside an open list hands it to that
/// list, at once if it is a list and at the next separator or closing bracket
/// if it is an integer.
proof fn lemma_run_element(s: Scan, v: Value, after: Scan)
    requires
        s.pending is None,
        s.done is None,
        s.open.len() > 0,
        representable(v),
        after == (Scan { open: append_to_top(s.open, v), ..s }),
    ensures
        s.run(render(v)) is Ok,
        s.run(render(v)).unwrap().flush() == Ok::<Scan, ParseError>(after),
    decreases v, 1nat,
{
    match v {
        Value::Int(n) => lemma_run_digits(s, n),
        Value::List(_) => lemma_run_list(s, v),
    }
}

/// Parsing the text of a list, all of whose integers fit in 64 bits, gives
/// that list back.
pub proof fn lemma_parse_render(v: Value)
    requires
        v is List,
        representable(v),
    ensures
        parse_spec(render(v)) == Ok::<Value, ParseError>(v),
{
    lemma_run_list(Scan::start(), v);
}

/// A line is well formed when it is the text of a list whose integers fit in
/// 64 bits: brackets, commas and decimal numbers without leading zeros, and
/// nothing else.
pub open spec fn well_formed(line: Seq<u8>) -> bool {
    exists|v: Value| v is List && representable(v) && #[trigger] render(v) == line
}

/// A well-formed line parses, and the text of what it parses to is the line
/// itself.
pub proof fn lemma_round_trip(line: Seq<u8>)
    requires
        well_formed(line),
    ensures
        parse_spec(line) is Ok,
        render(parse_spec(line).unwrap()) == line,
{
    let v = choose|v: Value| v is List && representable(v) && #[trigger] render(v) == line;
    lemma_parse_render(v);
}

/// Whatever a line parses to, the text of that value parses to it again:
/// rendering picks, among the lines that spell a list, the well-formed one.
pub proof fn lemma_render_parsed(line: Seq<u8>)
    ensures
        match parse_spec(line) {
            Ok(v) => well_formed(render(v)) && parse_spec(render(v)) == Ok::<Value, ParseError>(v),
            Err(_) => true,
        },
{
    lemma_parse_gives_list(line);
    match parse_spec(line) {
        Ok(v) => lemma_parse_render(v),
        Err(_) => {},
    }
}

} // verus!
