//! The lexer's mathematical model: byte classes, the scanning automaton,
//! and the sequence of results that an input yields.
use crate::token::Scanned;
use vstd::prelude::*;

verus! {

pub const SPACE: u8 = 0x20;
pub const TAB: u8 = 0x09;
pub const NEWLINE: u8 = 0x0a;
pub const RETURN: u8 = 0x0d;
pub const LPAREN: u8 = 0x28;
pub const RPAREN: u8 = 0x29;
pub const POINT: u8 = 0x2e;
pub const UNDERSCORE: u8 = 0x5f;
pub const ZERO: u8 = 0x30;

/// The scanner's state while it accumulates one lexeme.
#[derive(PartialEq, Eq, Structural, Clone, Copy, Debug)]
pub enum State {
    Start,
    Ident,
    Int,
    Float,
    Error,
}

pub open spec fn is_space(b: u8) -> bool {
    b == SPACE || b == TAB || b == NEWLINE || b == RETURN
}

pub open spec fn is_letter(b: u8) -> bool {
    (0x61 <= b && b <= 0x7a) || (0x41 <= b && b <= 0x5a)
}

pub open spec fn is_digit(b: u8) -> bool {
    0x30 <= b && b <= 0x39
}

pub open spec fn is_word(b: u8) -> bool {
    is_letter(b) || is_digit(b) || b == UNDERSCORE
}

pub open spec fn is_paren(b: u8) -> bool {
    b == LPAREN || b == RPAREN
}

/// The state that a lexeme's first byte opens, or `None` for a byte that opens no run.
pub open spec fn opening_state(b: u8) -> Option<State> {
    if is_letter(b) || b == UNDERSCORE {
        Some(State::Ident)
    } else if is_digit(b) {
        Some(State::Int)
    } else if b == POINT {
        Some(State::Float)
    } else {
        None
    }
}

/// The state after `b` extends a run in state `st`, or `None` where `b` is a boundary.
pub open spec fn transition(st: State, b: u8) -> Option<State> {
    match st {
        State::Ident => if is_word(b) { Some(State::Ident) } else { None },
        State::Error => if is_word(b) { Some(State::Error) } else { None },
        State::Int => if is_digit(b) {
            Some(State::Int)
        } else if b == POINT {
            Some(State::Float)
        } else if is_letter(b) {
            Some(State::Error)
        } else {
            None
        },
        State::Float => if is_digit(b) {
            Some(State::Float)
        } else if b == POINT || is_letter(b) {
            Some(State::Error)
        } else {
            None
        },
        State::Start => None,
    }
}

/// Maximal munch: runs the automaton from state `st` at index `i` of `s`, and gives
/// the state and the index of the first boundary byte (or the end of `s`).
pub open spec fn run(st: State, s: Seq<u8>, i: nat) -> (State, nat)
    decreases s.len() - i,
{
    if i >= s.len() {
        (st, i)
    } else {
        match transition(st, s[i as int]) {
            Some(next) => run(next, s, i + 1),
            None => (st, i),
        }
    }
}

/// Every run that ends in the integer state began in it and holds digits only.
pub proof fn lemma_int_run_digits(st: State, s: Seq<u8>, i: nat)
    requires
        run(st, s, i).0 == State::Int,
    ensures
        st == State::Int,
        forall|k: int| i <= k < run(st, s, i).1 ==> is_digit(#[trigger] s[k]),
    decreases s.len() - i,
{
    if i < s.len() {
        if let Some(next) = transition(st, s[i as int]) {
            lemma_int_run_digits(next, s, i + 1);
        }
    }
}

/// A run ends no earlier than it starts and no later than the input.
pub proof fn lemma_run_bounds(st: State, s: Seq<u8>, i: nat)
    requires
        i <= s.len(),
    ensures
        i <= run(st, s, i).1 <= s.len(),
    decreases s.len() - i,
{
    if i < s.len() {
        if let Some(next) = transition(st, s[i as int]) {
            lemma_run_bounds(next, s, i + 1);
        }
    }
}

/// The characters of a byte string, one for each byte.
pub open spec fn chars(t: Seq<u8>) -> Seq<char> {
    t.map_values(|b: u8| b as char)
}

/// The value of a string of decimal digits.
pub open spec fn digits_value(t: Seq<u8>) -> int
    decreases t.len(),
{
    if t.len() == 0 {
        0
    } else {
        digits_value(t.drop_last()) * 10 + (t.last() - ZERO)
    }
}

/// The result for a run `t` that ended in state `st`.
pub open spec fn finish(st: State, t: Seq<u8>) -> Scanned {
    match st {
        State::Ident => Scanned::Ident(chars(t)),
        State::Int => if digits_value(t) <= i64::MAX {
            Scanned::Int(digits_value(t))
        } else {
            Scanned::Overflow(chars(t))
        },
        State::Float => if t == seq![POINT] {
            Scanned::Malformed(chars(t))
        } else {
            Scanned::Float(chars(t))
        },
        _ => Scanned::Malformed(chars(t)),
    }
}

/// The index of the first byte at or after `i` that is no whitespace.
pub open spec fn skip_space(s: Seq<u8>, i: nat) -> nat
    decreases s.len() - i,
{
    if i < s.len() && is_space(s[i as int]) {
        skip_space(s, i + 1)
    } else {
        i
    }
}

/// One result of the lexer: what it means, where its lexeme starts (after the
/// whitespace skipped before it) and where it ends.
pub struct Step {
    pub result: Scanned,
    pub start: nat,
    pub end: nat,
}

/// The next result of the lexer on `s` from index `i`, or `None` where only
/// whitespace is left.
pub open spec fn scan_at(s: Seq<u8>, i: nat) -> Option<Step> {
    let k = skip_space(s, i);
    if k >= s.len() {
        None
    } else {
        let b = s[k as int];
        if b == LPAREN {
            Some(Step { result: Scanned::LParen, start: k, end: k + 1 })
        } else if b == RPAREN {
            Some(Step { result: Scanned::RParen, start: k, end: k + 1 })
        } else {
            match opening_state(b) {
                None => Some(
                    Step {
                        result: Scanned::Unrecognized(chars(s.subrange(k as int, k + 1 as int))),
                        start: k,
                        end: k + 1,
                    },
                ),
                Some(st) => {
                    let (last, end) = run(st, s, k + 1);
                    Some(
                        Step {
                            result: finish(last, s.subrange(k as int, end as int)),
                            start: k,
                            end,
                        },
                    )
                },
            }
        }
    }
}

/// All results of the lexer on `s` from index `i`, in order.
pub open spec fn lex_from(s: Seq<u8>, i: nat) -> Seq<Step>
    decreases s.len() - i,
{
    match scan_at(s, i) {
        None => seq![],
        Some(step) => if i < step.end <= s.len() {
            seq![step] + lex_from(s, step.end)
        } else {
            seq![]
        },
    }
}

/// All results of the lexer on the whole of `s`.
pub open spec fn lex(s: Seq<u8>) -> Seq<Step> {
    lex_from(s, 0)
}

} // verus!
