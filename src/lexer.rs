//! The lexer: a cursor over its input that hands out one result per call.
//!
//! The byte that ends a run is never consumed by that run: the cursor stays on it,
//! so it is the first byte that the next call examines.
use crate::model::{
    chars, digits_value, finish, is_digit, is_letter, is_space, is_word, lemma_int_run_digits,
    opening_state, run, scan_at, skip_space, transition, State, LPAREN, NEWLINE, POINT, RETURN,
    RPAREN, SPACE, TAB, UNDERSCORE, ZERO,
};
use crate::token::{result_view, LexError, Token};
use vstd::prelude::*;
use vstd::string::StringSliceAdditionalSpecFns;

verus! {

/// Relies on `String::push`: appends the one char to the string.
#[verifier::external_body]
fn push_char(s: &mut String, c: char)
    ensures
        final(s)@ == old(s)@.push(c),
{
    s.push(c)
}

fn space(b: u8) -> (r: bool)
    ensures
        r == is_space(b),
{
    b == SPACE || b == TAB || b == NEWLINE || b == RETURN
}

fn letter(b: u8) -> (r: bool)
    ensures
        r == is_letter(b),
{
    (0x61 <= b && b <= 0x7a) || (0x41 <= b && b <= 0x5a)
}

fn digit(b: u8) -> (r: bool)
    ensures
        r == is_digit(b),
{
    0x30 <= b && b <= 0x39
}

fn word(b: u8) -> (r: bool)
    ensures
        r == is_word(b),
{
    letter(b) || digit(b) || b == UNDERSCORE
}

fn open_state(b: u8) -> (r: Option<State>)
    ensures
        r == opening_state(b),
{
    if letter(b) || b == UNDERSCORE {
        Some(State::Ident)
    } else if digit(b) {
        Some(State::Int)
    } else if b == POINT {
        Some(State::Float)
    } else {
        None
    }
}

fn next_state(st: State, b: u8) -> (r: Option<State>)
    ensures
        r == transition(st, b),
{
    match st {
        State::Ident => if word(b) { Some(State::Ident) } else { None },
        State::Error => if word(b) { Some(State::Error) } else { None },
        State::Int => if digit(b) {
            Some(State::Int)
        } else if b == POINT {
            Some(State::Float)
        } else if letter(b) {
            Some(State::Error)
        } else {
            None
        },
        State::Float => if digit(b) {
            Some(State::Float)
        } else if b == POINT || letter(b) {
            Some(State::Error)
        } else {
            None
        },
        State::Start => None,
    }
}

/// The characters of `s[start..end]` as a string.
fn text(s: &Vec<u8>, start: usize, end: usize) -> (r: String)
    requires
        start <= end <= s.len(),
    ensures
        r@ == chars(s@.subrange(start as int, end as int)),
{
    let mut r = String::new();
    let mut i: usize = start;
    while i < end
        invariant
            start <= i <= end <= s.len(),
            r@ == chars(s@.subrange(start as int, i as int)),
        decreases end - i,
    {
        push_char(&mut r, s[i] as char);
        assert(s@.subrange(start as int, i + 1) =~= s@.subrange(start as int, i as int).push(
            s@[i as int],
        ));
        i = i + 1;
        assert(r@ =~= chars(s@.subrange(start as int, i as int)));
    }
    r
}

/// The value of the digits `s[start..end]`, or `None` where it exceeds `i64::MAX`.
fn digits(s: &Vec<u8>, start: usize, end: usize) -> (r: Option<i64>)
    requires
        start <= end <= s.len(),
        forall|k: int| start <= k < end ==> is_digit(#[trigger] s@[k]),
    ensures
        match r {
            Some(v) => v as int == digits_value(s@.subrange(start as int, end as int)),
            None => digits_value(s@.subrange(start as int, end as int)) > i64::MAX,
        },
{
    let mut acc: i64 = 0;
    let mut fits = true;
    let mut i: usize = start;
    while i < end
        invariant
            start <= i <= end <= s.len(),
            forall|k: int| start <= k < end ==> is_digit(#[trigger] s@[k]),
            0 <= acc,
            fits ==> acc as int == digits_value(s@.subrange(start as int, i as int)),
            !fits ==> digits_value(s@.subrange(start as int, i as int)) > i64::MAX,
        decreases end - i,
    {
        let d = (s[i] - ZERO) as i64;
        assert(0 <= d <= 9) by {
            assert(is_digit(s@[i as int]));
        }
        let ghost prefix = s@.subrange(start as int, i as int);
        let ghost longer = s@.subrange(start as int, i + 1);
        assert(longer.drop_last() =~= prefix);
        assert(digits_value(longer) == digits_value(prefix) * 10 + d);
        if fits {
            if acc <= (i64::MAX - d) / 10 {
                assert(acc * 10 + d <= i64::MAX) by (nonlinear_arith)
                    requires
                        acc <= (i64::MAX - d) / 10,
                        0 <= d <= 9,
                ;
                acc = acc * 10 + d;
            } else {
                assert(acc * 10 + d > i64::MAX) by (nonlinear_arith)
                    requires
                        acc > (i64::MAX - d) / 10,
                        0 <= d <= 9,
                ;
                fits = false;
            }
        }
        i = i + 1;
    }
    if fits {
        Some(acc)
    } else {
        None
    }
}

/// The result for the run `s[start..end]` that ended in state `st`.
fn finish_run(st: State, s: &Vec<u8>, start: usize, end: usize) -> (r: Result<Token, LexError>)
    requires
        start < end <= s.len(),
        st == State::Int ==> forall|k: int| start <= k < end ==> is_digit(#[trigger] s@[k]),
    ensures
        result_view(r) == finish(st, s@.subrange(start as int, end as int)),
{
    let ghost t = s@.subrange(start as int, end as int);
    match st {
        State::Ident => Ok(Token::Ident(text(s, start, end))),
        State::Int => match digits(s, start, end) {
            Some(v) => Ok(Token::Int(v)),
            None => Err(LexError::Overflow(text(s, start, end))),
        },
        State::Float => {
            if end - start == 1 && s[start] == POINT {
                assert(t =~= seq![POINT]);
                Err(LexError::Malformed(text(s, start, end)))
            } else {
                assert(t != seq![POINT]) by {
                    if t == seq![POINT] {
                        assert(t.len() == 1);
                        assert(t[0] == s@[start as int]);
                    }
                }
                Ok(Token::Float(text(s, start, end)))
            }
        },
        _ => Err(LexError::Malformed(text(s, start, end))),
    }
}

/// A lexer over an input held in memory.
pub struct TokenIterator {
    input: Vec<u8>,
    pos: usize,
}

impl TokenIterator {
    /// The whole input.
    pub closed spec fn input(&self) -> Seq<u8> {
        self.input@
    }

    /// The index of the first byte that no result has consumed yet.
    pub closed spec fn pos(&self) -> nat {
        self.pos as nat
    }

    /// The cursor lies within the input.
    pub closed spec fn wf(&self) -> bool {
        self.pos <= self.input.len()
    }

    /// A lexer over the given bytes.
    pub fn from_bytes(input: Vec<u8>) -> (r: Self)
        ensures
            r.wf(),
            r.pos() <= r.input().len(),
            r.input() == input@,
            r.pos() == 0,
    {
        TokenIterator { input, pos: 0 }
    }

    /// A lexer over the UTF-8 bytes of `s`.
    pub fn from_str(s: &str) -> (r: Self)
        ensures
            r.wf(),
            r.pos() <= r.input().len(),
            r.input() == s.spec_bytes(),
            r.pos() == 0,
    {
        let bytes = s.as_bytes();
        let mut input: Vec<u8> = Vec::new();
        let mut i: usize = 0;
        while i < bytes.len()
            invariant
                i <= bytes@.len(),
                bytes@ == s.spec_bytes(),
                input@ == bytes@.subrange(0, i as int),
            decreases bytes@.len() - i,
        {
            input.push(bytes[i]);
            i = i + 1;
            assert(input@ =~= bytes@.subrange(0, i as int));
        }
        assert(input@ =~= bytes@);
        Self::from_bytes(input)
    }

    /// The next result, or `None` once only whitespace is left. The first `None`
    /// consumes that whitespace and moves the cursor to the end of the input; every
    /// later call returns `None` and leaves the cursor there.
    pub fn next(&mut self) -> (r: Option<Result<Token, LexError>>)
        requires
            old(self).wf(),
        ensures
            final(self).wf(),
            final(self).pos() <= final(self).input().len(),
            final(self).input() == old(self).input(),
            match scan_at(old(self).input(), old(self).pos()) {
                None => r is None && final(self).pos() == final(self).input().len(),
                Some(step) => r is Some && result_view(r->Some_0) == step.result
                    && final(self).pos() == step.end,
            },
    {
        let len = self.input.len();
        let mut k: usize = self.pos;
        while k < len && space(self.input[k])
            invariant
                self.pos <= k <= len == self.input.len(),
                skip_space(self.input@, self.pos as nat) == skip_space(self.input@, k as nat),
            decreases len - k,
        {
            k = k + 1;
        }
        if k >= len {
            self.pos = k;
            return None;
        }
        let b = self.input[k];
        if b == LPAREN {
            self.pos = k + 1;
            return Some(Ok(Token::LParen));
        }
        if b == RPAREN {
            self.pos = k + 1;
            return Some(Ok(Token::RParen));
        }
        match open_state(b) {
            None => {
                self.pos = k + 1;
                Some(Err(LexError::Unrecognized(text(&self.input, k, k + 1))))
            },
            Some(first) => {
                let mut st = first;
                let mut i: usize = k + 1;
                while i < len
                    invariant
                        k < i <= len == self.input.len(),
                        run(first, self.input@, (k + 1) as nat) == run(st, self.input@, i as nat),
                    ensures
                        k < i <= len,
                        run(first, self.input@, (k + 1) as nat) == (st, i as nat),
                    decreases len - i,
                {
                    match next_state(st, self.input[i]) {
                        Some(n) => {
                            st = n;
                            i = i + 1;
                        },
                        None => break,
                    }
                }
                proof {
                    if st == State::Int {
                        lemma_int_run_digits(first, self.input@, (k + 1) as nat);
                        assert forall|j: int| k <= j < i implies is_digit(#[trigger] self.input@[j]) by {
                            if j > k {
                                assert(k + 1 <= j < run(first, self.input@, (k + 1) as nat).1);
                            }
                        }
                    }
                }
                let r = finish_run(st, &self.input, k, i);
                self.pos = i;
                Some(r)
            },
        }
    }
}

} // verus!
