//! The parser: one left-to-right scan over the bytes of a line, driven by an
//! explicit stack of the lists that are still open.

use vstd::prelude::*;
use crate::value::{representable, Item, Value, values_of};
use crate::value::{lemma_values_of_empty, lemma_values_of_push};

verus! {

/// Why a line was refused.
#[derive(Debug, Clone, Copy, PartialEq, Eq, Structural)]
pub enum ParseError {
    /// The bytes do not spell a bracketed list: a byte outside the alphabet,
    /// digits directly before `[`, digits or `]` with no open list to receive
    /// them, a number beyond 64 bits, or a line that ends before its list is
    /// closed.
    MalformedInput,
    /// The line would hold more than one top-level list: a `[` after the
    /// top-level list was closed.
    StructuralInvariantViolation,
}

/// The state of a scan between two bytes.
pub struct Scan {
    /// The lists that are still open, outermost first, each with the items
    /// read for it so far.
    pub open: Seq<Seq<Value>>,
    /// The number whose digits are being read, if any.
    pub pending: Option<nat>,
    /// The top-level list, once its closing bracket was read.
    pub done: Option<Value>,
}

/// The byte `[`, which opens a list.
pub const OPEN: u8 = 0x5b;

/// The byte `]`, which closes a list.
pub const CLOSE: u8 = 0x5d;

/// The byte `,`, which separates the items of a list.
pub const COMMA: u8 = 0x2c;

/// The line feed, which is read as a separator.
pub const NEWLINE: u8 = 0x0a;

/// The byte `0`, the first of the ten digits.
pub const ZERO: u8 = 0x30;

/// Whether `byte` is an ASCII digit.
pub open spec fn is_digit(byte: u8) -> bool {
    ZERO <= byte <= ZERO + 9
}

/// The number that an ASCII digit stands for.
pub open spec fn digit_value(byte: u8) -> nat {
    (byte - ZERO) as nat
}

/// `frames` with `value` appended to its last list.
pub open spec fn append_to_top(frames: Seq<Seq<Value>>, value: Value) -> Seq<Seq<Value>>
    recommends
        frames.len() > 0,
{
    frames.drop_last().push(frames.last().push(value))
}

impl Scan {
    /// The state before the first byte of a line.
    pub open spec fn start() -> Scan {
        Scan { open: Seq::empty(), pending: None, done: None }
    }

    /// Hands the pending number, if any, to the innermost open list.
    pub open spec fn flush(self) -> Result<Scan, ParseError> {
        match self.pending {
            None => Ok(self),
            Some(n) => if self.open.len() == 0 {
                Err(ParseError::MalformedInput)
            } else {
                Ok(Scan { open: append_to_top(self.open, Value::Int(n)), pending: None, ..self })
            },
        }
    }

    /// Closes the innermost open list: it becomes an item of the list around
    /// it, or the result of the line if it is the outermost.
    pub open spec fn close(self) -> Result<Scan, ParseError> {
        if self.open.len() == 0 {
            Err(ParseError::MalformedInput)
        } else if self.open.len() == 1 {
            Ok(Scan { open: Seq::empty(), done: Some(Value::List(self.open.last())), ..self })
        } else {
            Ok(
                Scan {
                    open: append_to_top(self.open.drop_last(), Value::List(self.open.last())),
                    ..self
                },
            )
        }
    }

    /// The state after one more byte, or the error that the byte causes.
    pub open spec fn step(self, byte: u8) -> Result<Scan, ParseError> {
        if byte == OPEN {
            if self.pending is Some {
                Err(ParseError::MalformedInput)
            } else if self.done is Some {
                Err(ParseError::StructuralInvariantViolation)
            } else {
                Ok(Scan { open: self.open.push(Seq::empty()), ..self })
            }
        } else if byte == CLOSE {
            match self.flush() {
                Ok(s) => s.close(),
                Err(e) => Err(e),
            }
        } else if byte == COMMA || byte == NEWLINE {
            self.flush()
        } else if is_digit(byte) {
            let n = match self.pending {
                Some(n) => n * 10 + digit_value(byte),
                None => digit_value(byte),
            };
            if n > u64::MAX {
                Err(ParseError::MalformedInput)
            } else {
                Ok(Scan { pending: Some(n), ..self })
            }
        } else {
            Err(ParseError::MalformedInput)
        }
    }

    /// The state after all of `bytes`, or the first error on the way.
    pub open spec fn run(self, bytes: Seq<u8>) -> Result<Scan, ParseError>
        decreases bytes.len(),
    {
        if bytes.len() == 0 {
            Ok(self)
        } else {
            match self.step(bytes[0]) {
                Ok(s) => s.run(bytes.skip(1)),
                Err(e) => Err(e),
            }
        }
    }

    /// What the line was, at its end.
    pub open spec fn finish(self) -> Result<Value, ParseError> {
        match self.flush() {
            Ok(s) => match s.done {
                Some(v) => Ok(v),
                None => Err(ParseError::MalformedInput),
            },
            Err(e) => Err(e),
        }
    }
}

/// The list that a line spells, or why it spells none.
pub open spec fn parse_spec(bytes: Seq<u8>) -> Result<Value, ParseError> {
    match Scan::start().run(bytes) {
        Ok(s) => s.finish(),
        Err(e) => Err(e),
    }
}

impl Scan {
    /// What holds of every state that a scan reaches: every integer fits in
    /// 64 bits, and the result, once there is one, is a list.
    pub open spec fn sound(self) -> bool {
        &&& forall|f: int, j: int|
            0 <= f < self.open.len() && 0 <= j < self.open[f].len() ==> representable(
                #[trigger] self.open[f][j],
            )
        &&& match self.pending {
            Some(n) => n <= u64::MAX,
            None => true,
        }
        &&& match self.done {
            Some(v) => v is List && representable(v),
            None => true,
        }
    }
}

/// A step from a sound state ends in a sound state.
pub proof fn lemma_step_sound(s: Scan, byte: u8)
    requires
        s.sound(),
    ensures
        match s.step(byte) {
            Ok(t) => t.sound(),
            Err(_) => true,
        },
{
    if byte == CLOSE {
        lemma_flush_sound(s);
        match s.flush() {
            Ok(t) => lemma_close_sound(t),
            Err(_) => {},
        }
    } else if byte == COMMA || byte == NEWLINE {
        lemma_flush_sound(s);
    }
}

proof fn lemma_flush_sound(s: Scan)
    requires
        s.sound(),
    ensures
        match s.flush() {
            Ok(t) => t.sound(),
            Err(_) => true,
        },
{
}

proof fn lemma_close_sound(s: Scan)
    requires
        s.sound(),
    ensures
        match s.close() {
            Ok(t) => t.sound(),
            Err(_) => true,
        },
{
    if s.open.len() > 0 {
        let top = s.open.len() - 1;
        assert forall|j: int| 0 <= j < s.open.last().len() implies representable(
            #[trigger] s.open.last()[j],
        ) by {
            assert(representable(s.open[top][j]));
        }
        assert(representable(Value::List(s.open.last())));
    }
}

/// A scan from a sound state ends in a sound state.
pub proof fn lemma_run_sound(s: Scan, bytes: Seq<u8>)
    requires
        s.sound(),
    ensures
        match s.run(bytes) {
            Ok(t) => t.sound(),
            Err(_) => true,
        },
    decreases bytes.len(),
{
    if bytes.len() > 0 {
        lemma_step_sound(s, bytes[0]);
        match s.step(bytes[0]) {
            Ok(t) => lemma_run_sound(t, bytes.skip(1)),
            Err(_) => {},
        }
    }
}

/// What a line parses to is a list, and its integers fit in 64 bits.
pub proof fn lemma_parse_gives_list(bytes: Seq<u8>)
    ensures
        match parse_spec(bytes) {
            Ok(v) => v is List && representable(v),
            Err(_) => true,
        },
{
    lemma_run_sound(Scan::start(), bytes);
    match Scan::start().run(bytes) {
        Ok(t) => lemma_flush_sound(t),
        Err(_) => {},
    }
}

/// The contents of a stack of open lists, list by list.
pub open spec fn frames_of(frames: Seq<Vec<Item>>) -> Seq<Seq<Value>> {
    Seq::new(frames.len(), |i: int| values_of(frames[i]@))
}

/// A scan in progress: the open lists, the number being read, and the
/// top-level list once it is closed.
pub struct Parser {
    open: Vec<Vec<Item>>,
    pending: Option<u64>,
    done: Option<Item>,
}

impl View for Parser {
    type V = Scan;

    closed spec fn view(&self) -> Scan {
        Scan {
            open: frames_of(self.open@),
            pending: match self.pending {
                Some(n) => Some(n as nat),
                None => None,
            },
            done: match self.done {
                Some(item) => Some(item@),
                None => None,
            },
        }
    }
}

impl Parser {
    /// A parser at the start of a line.
    pub fn new() -> (parser: Parser)
        ensures
            parser@ == Scan::start(),
    {
        let parser = Parser { open: Vec::new(), pending: None, done: None };
        assert(parser@.open =~= Seq::empty());
        parser
    }

    /// Appends `item` to the innermost open list.
    fn push_item(&mut self, item: Item)
        requires
            old(self)@.open.len() > 0,
        ensures
            final(self)@ == (Scan { open: append_to_top(old(self)@.open, item@), ..old(self)@ }),
    {
        let ghost before = self.open@;
        let mut top: Vec<Item> = self.open.pop().unwrap();
        top.push(item);
        self.open.push(top);
        proof {
            lemma_values_of_push(before.last()@, item);
            assert(frames_of(self.open@) =~= append_to_top(frames_of(before), item@));
        }
    }

    /// Hands the pending number, if any, to the innermost open list.
    fn flush(&mut self) -> (r: Result<(), ParseError>)
        ensures
            match r {
                Ok(()) => old(self)@.flush() == Ok::<Scan, ParseError>(final(self)@),
                Err(e) => old(self)@.flush() == Err::<Scan, ParseError>(e) && final(self)@ == old(
                    self,
                )@,
            },
    {
        match self.pending {
            None => Ok(()),
            Some(n) => {
                if self.open.len() == 0 {
                    Err(ParseError::MalformedInput)
                } else {
                    self.pending = None;
                    self.push_item(Item::Integer(n));
                    Ok(())
                }
            },
        }
    }

    /// Closes the innermost open list.
    fn close(&mut self) -> (r: Result<(), ParseError>)
        ensures
            match r {
                Ok(()) => old(self)@.close() == Ok::<Scan, ParseError>(final(self)@),
                Err(e) => old(self)@.close() == Err::<Scan, ParseError>(e) && final(self)@ == old(
                    self,
                )@,
            },
    {
        if self.open.len() == 0 {
            return Err(ParseError::MalformedInput);
        }
        let ghost before = self.open@;
        let child: Vec<Item> = self.open.pop().unwrap();
        if self.open.len() == 0 {
            self.done = Some(Item::List(child));
            assert(frames_of(self.open@) =~= Seq::empty());
        } else {
            assert(frames_of(self.open@) =~= frames_of(before).drop_last());
            self.push_item(Item::List(child));
        }
        Ok(())
    }

    /// Takes the next byte of the line. On an error the parser is left as it
    /// was.
    pub fn feed(&mut self, byte: u8) -> (r: Result<(), ParseError>)
        ensures
            match r {
                Ok(()) => old(self)@.step(byte) == Ok::<Scan, ParseError>(final(self)@),
                Err(e) => old(self)@.step(byte) == Err::<Scan, ParseError>(e) && final(self)@ == old(
                    self,
                )@,
            },
    {
        if byte == OPEN {
            if self.pending.is_some() {
                Err(ParseError::MalformedInput)
            } else if self.done.is_some() {
                Err(ParseError::StructuralInvariantViolation)
            } else {
                let ghost before = self.open@;
                self.open.push(Vec::new());
                proof {
                    lemma_values_of_empty();
                    assert(frames_of(self.open@) =~= frames_of(before).push(Seq::empty()));
                }
                Ok(())
            }
        } else if byte == CLOSE {
            if self.open.len() == 0 {
                return Err(ParseError::MalformedInput);
            }
            match self.flush() {
                Ok(()) => self.close(),
                Err(e) => Err(e),
            }
        } else if byte == COMMA || byte == NEWLINE {
            self.flush()
        } else if ZERO <= byte && byte <= ZERO + 9 {
            let digit: u64 = (byte - ZERO) as u64;
            let next: Option<u64> = match self.pending {
                None => Some(digit),
                Some(n) => match n.checked_mul(10) {
                    None => None,
                    Some(tens) => tens.checked_add(digit),
                },
            };
            match next {
                None => Err(ParseError::MalformedInput),
                Some(n) => {
                    self.pending = Some(n);
                    Ok(())
                },
            }
        } else {
            Err(ParseError::MalformedInput)
        }
    }

    /// Ends the line and hands out its list.
    pub fn finish(self) -> (r: Result<Item, ParseError>)
        ensures
            match r {
                Ok(item) => self@.finish() == Ok::<Value, ParseError>(item@),
                Err(e) => self@.finish() == Err::<Value, ParseError>(e),
            },
    {
        let mut parser = self;
        match parser.flush() {
            Ok(()) => match parser.done {
                Some(item) => Ok(item),
                None => Err(ParseError::MalformedInput),
            },
            Err(e) => Err(e),
        }
    }
}

/// Parses one line: the list that its bytes spell, or the first error of the
/// scan.
pub fn parse(bytes: &[u8]) -> (r: Result<Item, ParseError>)
    ensures
        match r {
            Ok(item) => parse_spec(bytes@) == Ok::<Value, ParseError>(item@) && item@ is List,
            Err(e) => parse_spec(bytes@) == Err::<Value, ParseError>(e),
        },
{
    proof {
        lemma_parse_gives_list(bytes@);
    }
    let mut parser = Parser::new();
    let mut i: usize = 0;
    assert(bytes@.skip(0) =~= bytes@);
    while i < bytes.len()
        invariant
            i <= bytes.len(),
            Scan::start().run(bytes@) == parser@.run(bytes@.skip(i as int)),
        decreases bytes.len() - i,
    {
        assert(bytes@.skip(i as int).skip(1) =~= bytes@.skip(i + 1));
        match parser.feed(bytes[i]) {
            Ok(()) => {},
            Err(e) => {
                return Err(e);
            },
        }
        i += 1;
    }
    parser.finish()
}

} // verus!
