//! Pairs of nested values, as a sequence of lines spells them: two lines of
//! text for each pair, and a third line between two pairs.

use vstd::prelude::*;
use crate::parser::{parse, parse_spec, ParseError, NEWLINE};
use crate::text::{render, write_item};
use crate::value::{Item, Value, lemma_values_of_empty};

verus! {

/// The mathematical content of a pair.
pub struct PairValue {
    /// The first value of the pair.
    pub left: Value,
    /// The second value of the pair.
    pub right: Value,
}

/// Two nested values that are to be compared.
#[derive(Debug)]
pub struct Pair {
    /// The first value of the pair.
    pub left: Item,
    /// The second value of the pair.
    pub right: Item,
}

impl View for Pair {
    type V = PairValue;

    open spec fn view(&self) -> PairValue {
        PairValue { left: self.left@, right: self.right@ }
    }
}

/// The contents of a sequence of pairs, pair by pair.
pub open spec fn pairs_of(pairs: Seq<Pair>) -> Seq<PairValue> {
    Seq::new(pairs.len(), |k: int| pairs[k]@)
}

/// A line that could not be parsed.
#[derive(Debug, Clone, Copy, PartialEq, Eq, Structural)]
pub struct LoadError {
    /// The number of the line, counted from one.
    pub line: usize,
    /// Why the line was refused.
    pub error: ParseError,
}

/// Whether line `i`, counted from zero, separates two pairs. Such a line is
/// never read.
pub open spec fn is_separator(i: int) -> bool {
    i % 3 == 2
}

/// The number of pairs that `n` lines spell: one for each line that begins a
/// group of three.
pub open spec fn pair_count(n: nat) -> nat {
    (n + 2) / 3
}

/// The value of the empty list.
pub open spec fn empty_list() -> Value {
    Value::List(Seq::empty())
}

/// Whether `problem` is what `lines` spell: pair `k` has its left value from
/// line `3k` and its right value from line `3k + 1`; where the lines end
/// after a left value, its right value is the empty list.
pub open spec fn spells(lines: Seq<Seq<u8>>, problem: Seq<PairValue>) -> bool {
    &&& problem.len() == pair_count(lines.len())
    &&& forall|k: int|
        0 <= k < problem.len() ==> {
            &&& parse_spec(lines[3 * k]) == Ok::<Value, ParseError>((#[trigger] problem[k]).left)
            &&& if 3 * k + 1 < lines.len() {
                parse_spec(lines[3 * k + 1]) == Ok::<Value, ParseError>(problem[k].right)
            } else {
                problem[k].right == empty_list()
            }
        }
}

/// Whether line `i`, counted from zero, is the first that is read and
/// refused, and `error` is why.
pub open spec fn first_refused(lines: Seq<Seq<u8>>, i: int, error: ParseError) -> bool {
    &&& 0 <= i < lines.len()
    &&& !is_separator(i)
    &&& parse_spec(lines[i]) == Err::<Value, ParseError>(error)
    &&& forall|j: int| 0 <= j < i && !is_separator(j) ==> (#[trigger] parse_spec(lines[j])) is Ok
}

/// Reads the pairs that `lines` spell. Lines are taken in groups of three: a
/// left value, a right value, and a line that is skipped unread.
///
/// The first line that is read and refused ends the loading, with its number
/// and the reason.
pub fn load(lines: &Vec<Vec<u8>>) -> (r: Result<Vec<Pair>, LoadError>)
    ensures
        match r {
            Ok(problem) => {
                &&& spells(lines.deep_view(), pairs_of(problem@))
                &&& forall|j: int|
                    0 <= j < lines.len() && !is_separator(j) ==> (#[trigger] parse_spec(
                        lines.deep_view()[j],
                    )) is Ok
            },
            Err(e) => first_refused(lines.deep_view(), e.line - 1, e.error),
        },
{
    let ghost texts = lines.deep_view();
    let mut problem: Vec<Pair> = Vec::new();
    let mut i: usize = 0;
    assert(spells(texts.take(0), pairs_of(problem@)));
    while i < lines.len()
        invariant
            i <= lines.len(),
            texts == lines.deep_view(),
            texts.len() == lines.len(),
            forall|j: int| 0 <= j < lines.len() ==> #[trigger] texts[j] == lines[j]@,
            spells(texts.take(i as int), pairs_of(problem@)),
            forall|j: int|
                0 <= j < i && !is_separator(j) ==> (#[trigger] parse_spec(texts[j])) is Ok,
        decreases lines.len() - i,
    {
        let ghost before = pairs_of(problem@);
        let position: usize = i % 3;
        if position != 2 {
            let item: Item = match parse(lines[i].as_slice()) {
                Ok(item) => item,
                Err(error) => {
                    return Err(LoadError { line: i + 1, error });
                },
            };
            if position == 0 {
                let right: Item = Item::List(Vec::new());
                proof {
                    lemma_values_of_empty();
                }
                problem.push(Pair { left: item, right });
            } else {
                let last: Pair = problem.pop().unwrap();
                problem.push(Pair { left: last.left, right: item });
            }
        }
        proof {
            let now = pairs_of(problem@);
            let seen = texts.take(i + 1);
            assert(now.len() == pair_count(seen.len()));
            assert forall|k: int| 0 <= k < now.len() implies {
                &&& parse_spec(seen[3 * k]) == Ok::<Value, ParseError>((#[trigger] now[k]).left)
                &&& if 3 * k + 1 < seen.len() {
                    parse_spec(seen[3 * k + 1]) == Ok::<Value, ParseError>(now[k].right)
                } else {
                    now[k].right == empty_list()
                }
            } by {
                if k < before.len() {
                    assert(before[k].left == now[k].left);
                    assert(texts.take(i as int)[3 * k] == seen[3 * k]);
                }
            }
        }
        i += 1;
    }
    assert(texts.take(i as int) =~= texts);
    Ok(problem)
}

/// The text of a pair: its left value, its right value and an empty line,
/// each ended by a line feed.
pub open spec fn render_pair(pair: PairValue) -> Seq<u8> {
    render(pair.left) + seq![NEWLINE] + render(pair.right) + seq![NEWLINE, NEWLINE]
}

/// The text of a sequence of pairs: the texts of the pairs in order.
pub open spec fn render_problem(problem: Seq<PairValue>) -> Seq<u8>
    decreases problem.len(),
{
    if problem.len() == 0 {
        Seq::empty()
    } else {
        render_problem(problem.drop_last()) + render_pair(problem.last())
    }
}

/// The text of `problem`.
pub fn serialize_problem(problem: &Vec<Pair>) -> (text: Vec<u8>)
    ensures
        text@ == render_problem(pairs_of(problem@)),
{
    let ghost pairs = pairs_of(problem@);
    let mut text: Vec<u8> = Vec::new();
    let mut k: usize = 0;
    while k < problem.len()
        invariant
            k <= problem.len(),
            pairs == pairs_of(problem@),
            text@ == render_problem(pairs.take(k as int)),
        decreases problem.len() - k,
    {
        let ghost before = text@;
        write_item(&problem[k].left, &mut text);
        text.push(NEWLINE);
        write_item(&problem[k].right, &mut text);
        text.push(NEWLINE);
        text.push(NEWLINE);
        proof {
            let next = pairs.take(k + 1);
            assert(next.drop_last() =~= pairs.take(k as int));
            assert(next.last() == problem@[k as int]@);
            assert(text@ =~= before + render_pair(next.last()));
        }
        k += 1;
    }
    assert(pairs.take(k as int) =~= pairs);
    text
}

} // verus!
