//! Properties of the lexer's results, stated over the model and proved.
use crate::model::{
    chars, digits_value, is_digit, is_letter, is_paren, is_space, is_word, lemma_int_run_digits,
    lemma_run_bounds, lex, lex_from, opening_state, run, scan_at, skip_space, transition, State,
    Step, LPAREN, POINT, RPAREN, UNDERSCORE,
};
use crate::token::Scanned;
use vstd::prelude::*;

verus! {

/// `result` is what the lexeme `text` means: a parenthesis is its own byte, an
/// integer is the value of its digits, every other result carries the text itself.
pub open spec fn renders(result: Scanned, text: Seq<u8>) -> bool {
    match result {
        Scanned::LParen => text == seq![LPAREN],
        Scanned::RParen => text == seq![RPAREN],
        Scanned::Int(v) => (forall|k: int| 0 <= k < text.len() ==> is_digit(#[trigger] text[k]))
            && v == digits_value(text),
        Scanned::Ident(t) => t == chars(text),
        Scanned::Float(t) => t == chars(text),
        Scanned::Unrecognized(t) => t == chars(text),
        Scanned::Malformed(t) => t == chars(text),
        Scanned::Overflow(t) => t == chars(text),
    }
}

/// From index `i`, the input `s` is exactly a run of whitespace followed by the
/// lexeme of the first step, then the same for each following step, and a final
/// run of whitespace; each lexeme is non-empty and means its step's result.
pub open spec fn tiles(s: Seq<u8>, steps: Seq<Step>, i: nat) -> bool
    decreases steps.len(),
{
    if steps.len() == 0 {
        forall|k: int| i <= k < s.len() ==> is_space(#[trigger] s[k])
    } else {
        let step = steps[0];
        &&& i <= step.start < step.end <= s.len()
        &&& forall|k: int| i <= k < step.start ==> is_space(#[trigger] s[k])
        &&& renders(step.result, s.subrange(step.start as int, step.end as int))
        &&& tiles(s, steps.drop_first(), step.end)
    }
}

/// The results of a sequence of steps.
pub open spec fn results(steps: Seq<Step>) -> Seq<Scanned> {
    steps.map_values(|step: Step| step.result)
}

/// The parentheses of `s` from index `i`, in order, as results.
pub open spec fn paren_tokens(s: Seq<u8>, i: nat) -> Seq<Scanned>
    decreases s.len() - i,
{
    if i >= s.len() {
        seq![]
    } else if s[i as int] == LPAREN {
        seq![Scanned::LParen] + paren_tokens(s, i + 1)
    } else if s[i as int] == RPAREN {
        seq![Scanned::RParen] + paren_tokens(s, i + 1)
    } else {
        paren_tokens(s, i + 1)
    }
}

pub proof fn lemma_skip_space(s: Seq<u8>, i: nat)
    requires
        i <= s.len(),
    ensures
        i <= skip_space(s, i) <= s.len(),
        forall|k: int| i <= k < skip_space(s, i) ==> is_space(#[trigger] s[k]),
        skip_space(s, i) < s.len() ==> !is_space(s[skip_space(s, i) as int]),
    decreases s.len() - i,
{
    if i < s.len() && is_space(s[i as int]) {
        lemma_skip_space(s, i + 1);
    }
}

pub proof fn lemma_skip_to(s: Seq<u8>, h: nat, i: nat)
    requires
        h <= i < s.len(),
        forall|k: int| h <= k < i ==> is_space(#[trigger] s[k]),
        !is_space(s[i as int]),
    ensures
        skip_space(s, h) == i,
    decreases i - h,
{
    if h < i {
        assert(is_space(s[h as int]));
        lemma_skip_to(s, h + 1, i);
    }
}

/// A run passes unchanged over bytes that keep its state.
pub proof fn lemma_run_passes(st: State, s: Seq<u8>, a: nat, b: nat)
    requires
        a <= b <= s.len(),
        forall|k: int| a <= k < b ==> transition(st, #[trigger] s[k]) == Some(st),
    ensures
        run(st, s, a) == run(st, s, b),
    decreases b - a,
{
    if a < b {
        assert(transition(st, s[a as int]) == Some(st));
        lemma_run_passes(st, s, a + 1, b);
    }
}

/// What `scan_at` gives lies within the input after whitespace and means its lexeme.
pub proof fn lemma_scan_renders(s: Seq<u8>, i: nat)
    requires
        i <= s.len(),
    ensures
        scan_at(s, i) is None ==> forall|k: int| i <= k < s.len() ==> is_space(#[trigger] s[k]),
        scan_at(s, i) matches Some(step) ==> {
            &&& i <= step.start < step.end <= s.len()
            &&& forall|k: int| i <= k < step.start ==> is_space(#[trigger] s[k])
            &&& renders(step.result, s.subrange(step.start as int, step.end as int))
        },
{
    lemma_skip_space(s, i);
    let k = skip_space(s, i);
    if k < s.len() {
        let b = s[k as int];
        let t1 = s.subrange(k as int, k + 1 as int);
        assert(t1 =~= seq![b]);
        if b != LPAREN && b != RPAREN {
            if let Some(st) = opening_state(b) {
                lemma_run_bounds(st, s, k + 1);
                let (last, end) = run(st, s, k + 1);
                let t = s.subrange(k as int, end as int);
                if last == State::Int {
                    lemma_int_run_digits(st, s, k + 1);
                    assert forall|j: int| 0 <= j < t.len() implies is_digit(#[trigger] t[j]) by {
                        assert(t[j] == s[k + j]);
                    }
                }
            }
        }
    }
}

proof fn lemma_round_trip_from(s: Seq<u8>, i: nat)
    requires
        i <= s.len(),
    ensures
        tiles(s, lex_from(s, i), i),
    decreases s.len() - i,
{
    lemma_scan_renders(s, i);
    if let Some(step) = scan_at(s, i) {
        lemma_round_trip_from(s, step.end);
        let steps = lex_from(s, i);
        assert(steps[0] == step);
        assert(steps.drop_first() =~= lex_from(s, step.end));
    }
}

/// The lexer walks `lex`: the results from index `i` are the one that `scan_at`
/// gives there, then those from where it ends; where it gives none, there are none.
pub proof fn lemma_lex_steps(s: Seq<u8>, i: nat)
    requires
        i <= s.len(),
    ensures
        scan_at(s, i) is None ==> lex_from(s, i) == Seq::<Step>::empty(),
        scan_at(s, i) matches Some(step) ==> lex_from(s, i) == seq![step] + lex_from(s, step.end),
{
    lemma_scan_renders(s, i);
}

/// Round trip: the whitespace that the lexer skips and the lexemes of its results,
/// in order, make up the whole input, each byte once; each lexeme is non-empty and
/// means its result.
pub proof fn lemma_round_trip(s: Seq<u8>)
    ensures
        tiles(s, lex(s), 0),
{
    lemma_round_trip_from(s, 0);
}

/// Once the lexer has signalled the end, it signals the end from every later
/// position as well, and yields no further result.
pub proof fn lemma_end_is_final(s: Seq<u8>, i: nat)
    requires
        i <= s.len(),
        scan_at(s, i) is None,
    ensures
        forall|j: nat| i <= j ==> (#[trigger] scan_at(s, j)) is None,
        lex_from(s, i) == Seq::<Step>::empty(),
{
    lemma_scan_renders(s, i);
    assert forall|j: nat| i <= j implies (#[trigger] scan_at(s, j)) is None by {
        if j <= s.len() {
            lemma_skip_space(s, j);
            if skip_space(s, j) < s.len() {
                assert(is_space(s[skip_space(s, j) as int]));
            }
        }
    }
}

proof fn lemma_paren_tokens_skip(s: Seq<u8>, i: nat, k: nat)
    requires
        i <= k <= s.len(),
        forall|j: int| i <= j < k ==> is_space(#[trigger] s[j]),
    ensures
        paren_tokens(s, i) == paren_tokens(s, k),
    decreases k - i,
{
    if i < k {
        assert(is_space(s[i as int]));
        lemma_paren_tokens_skip(s, i + 1, k);
    }
}

proof fn lemma_parens_from(s: Seq<u8>, i: nat)
    requires
        i <= s.len(),
        forall|j: int| 0 <= j < s.len() ==> is_space(#[trigger] s[j]) || is_paren(s[j]),
    ensures
        results(lex_from(s, i)) == paren_tokens(s, i),
    decreases s.len() - i,
{
    lemma_skip_space(s, i);
    let k = skip_space(s, i);
    lemma_paren_tokens_skip(s, i, k);
    if k < s.len() {
        assert(is_space(s[k as int]) || is_paren(s[k as int]));
        lemma_parens_from(s, k + 1);
        let step = scan_at(s, i)->Some_0;
        assert(step.end == k + 1);
        assert(lex_from(s, i) == seq![step] + lex_from(s, k + 1));
        assert(results(seq![step] + lex_from(s, k + 1)) =~= seq![step.result] + results(
            lex_from(s, k + 1),
        ));
    } else {
        assert(results(lex_from(s, i)) =~= seq![]);
    }
}

/// On an input of parentheses and whitespace alone, the results are exactly its
/// parentheses, in order, with the whitespace left out.
pub proof fn lemma_parens_only(s: Seq<u8>)
    requires
        forall|j: int| 0 <= j < s.len() ==> is_space(#[trigger] s[j]) || is_paren(s[j]),
    ensures
        results(lex(s)) == paren_tokens(s, 0),
{
    lemma_parens_from(s, 0);
}

/// An identifier `s[i..j]`, after whitespace `s[h..i]` and before a byte that cannot
/// extend it (or the end), is scanned as that identifier, its text unchanged.
pub proof fn lemma_identifier(s: Seq<u8>, h: nat, i: nat, j: nat)
    requires
        h <= i < j <= s.len(),
        forall|k: int| h <= k < i ==> is_space(#[trigger] s[k]),
        is_letter(s[i as int]) || s[i as int] == UNDERSCORE,
        forall|k: int| i < k < j ==> is_word(#[trigger] s[k]),
        j == s.len() || !is_word(s[j as int]),
    ensures
        scan_at(s, h) == Some(
            (Step { result: Scanned::Ident(chars(s.subrange(i as int, j as int))), start: i, end: j }),
        ),
{
    lemma_skip_to(s, h, i);
    lemma_run_passes(State::Ident, s, i + 1, j);
}

/// A run of digits `s[i..j]`, after whitespace `s[h..i]` and before a byte that is
/// neither a letter, a digit, an underscore nor a point (or the end), is scanned as
/// the integer it denotes, or as an overflow where that exceeds `i64::MAX`.
pub proof fn lemma_integer(s: Seq<u8>, h: nat, i: nat, j: nat)
    requires
        h <= i < j <= s.len(),
        forall|k: int| h <= k < i ==> is_space(#[trigger] s[k]),
        forall|k: int| i <= k < j ==> is_digit(#[trigger] s[k]),
        j == s.len() || (!is_word(s[j as int]) && s[j as int] != POINT),
    ensures
        scan_at(s, h) == Some(
            (Step {
                result: if digits_value(s.subrange(i as int, j as int)) <= i64::MAX {
                    Scanned::Int(digits_value(s.subrange(i as int, j as int)))
                } else {
                    Scanned::Overflow(chars(s.subrange(i as int, j as int)))
                },
                start: i,
                end: j,
            }),
        ),
{
    assert(is_digit(s[i as int]));
    lemma_skip_to(s, h, i);
    lemma_run_passes(State::Int, s, i + 1, j);
}

/// A run `s[i..j]` of digits with one point at `p` and at least one digit, after
/// whitespace `s[h..i]` and before a byte that is neither a letter, a digit, an
/// underscore nor a point (or the end), is scanned as a decimal literal with that text.
pub proof fn lemma_decimal(s: Seq<u8>, h: nat, i: nat, p: nat, j: nat)
    requires
        h <= i <= p < j <= s.len(),
        i + 1 < j,
        forall|k: int| h <= k < i ==> is_space(#[trigger] s[k]),
        s[p as int] == POINT,
        forall|k: int| i <= k < j && k != p ==> is_digit(#[trigger] s[k]),
        j == s.len() || (!is_word(s[j as int]) && s[j as int] != POINT),
    ensures
        scan_at(s, h) == Some(
            (Step { result: Scanned::Float(chars(s.subrange(i as int, j as int))), start: i, end: j }),
        ),
{
    lemma_skip_to(s, h, i);
    lemma_run_passes(State::Float, s, p + 1, j);
    if i < p {
        assert(is_digit(s[i as int]));
        lemma_run_passes(State::Int, s, i + 1, p);
    }
    let t = s.subrange(i as int, j as int);
    assert(t.len() != 1);
    assert(t != seq![POINT]);
}

proof fn lemma_results_concat(x: Seq<Step>, y: Seq<Step>)
    ensures
        results(x + y) == results(x) + results(y),
{
    assert(results(x + y) =~= results(x) + results(y));
}

/// A run stops at a whitespace byte, so it never sees what follows one.
proof fn lemma_run_before_space(st: State, s: Seq<u8>, i: nat, m: nat)
    requires
        i <= m < s.len(),
        is_space(s[m as int]),
    ensures
        run(st, s, i) == run(st, s.subrange(0, m as int), i),
    decreases m - i,
{
    let a = s.subrange(0, m as int);
    if i < m {
        assert(a[i as int] == s[i as int]);
        if let Some(next) = transition(st, s[i as int]) {
            lemma_run_before_space(next, s, i + 1, m);
        }
    }
}

proof fn lemma_skip_before_space(s: Seq<u8>, i: nat, m: nat)
    requires
        i <= m < s.len(),
        is_space(s[m as int]),
    ensures
        skip_space(s.subrange(0, m as int), i) < m ==> skip_space(s, i) == skip_space(
            s.subrange(0, m as int),
            i,
        ),
        skip_space(s.subrange(0, m as int), i) >= m ==> skip_space(s, i) == skip_space(s, m + 1),
    decreases m - i,
{
    let a = s.subrange(0, m as int);
    if i < m {
        assert(a[i as int] == s[i as int]);
        lemma_skip_before_space(s, i + 1, m);
    }
}

proof fn lemma_results_before_space(s: Seq<u8>, i: nat, m: nat)
    requires
        i <= m < s.len(),
        is_space(s[m as int]),
    ensures
        results(lex_from(s, i)) == results(lex_from(s.subrange(0, m as int), i)) + results(
            lex_from(s, m + 1),
        ),
    decreases m - i,
{
    let a = s.subrange(0, m as int);
    lemma_skip_before_space(s, i, m);
    lemma_skip_space(a, i);
    lemma_lex_steps(a, i);
    lemma_lex_steps(s, i);
    lemma_lex_steps(s, m + 1);
    let k = skip_space(a, i);
    if k >= m {
        assert(lex_from(a, i) =~= Seq::<Step>::empty());
        assert(scan_at(s, i) == scan_at(s, m + 1));
        assert(results(lex_from(a, i)) =~= Seq::<Scanned>::empty());
        assert(results(lex_from(s, i)) =~= results(lex_from(a, i)) + results(lex_from(s, m + 1)));
    } else {
        assert(a[k as int] == s[k as int]);
        if let Some(st) = opening_state(s[k as int]) {
            lemma_run_before_space(st, s, k + 1, m);
            lemma_run_bounds(st, a, k + 1);
            let end = run(st, s, k + 1).1;
            assert(s.subrange(k as int, end as int) =~= a.subrange(k as int, end as int));
        } else {
            assert(s.subrange(k as int, k + 1 as int) =~= a.subrange(k as int, k + 1 as int));
        }
        let step = scan_at(a, i)->Some_0;
        assert(scan_at(s, i) == scan_at(a, i));
        lemma_results_before_space(s, step.end, m);
        lemma_results_concat(seq![step], lex_from(a, step.end));
        lemma_results_concat(seq![step], lex_from(s, step.end));
        assert(results(lex_from(s, i)) =~= results(lex_from(a, i)) + results(lex_from(s, m + 1)));
    }
}

proof fn lemma_skip_shift(s: Seq<u8>, o: nat, j: nat)
    requires
        o + j <= s.len(),
    ensures
        skip_space(s, o + j) == o + skip_space(s.subrange(o as int, s.len() as int), j),
    decreases s.len() - (o + j),
{
    let b = s.subrange(o as int, s.len() as int);
    if o + j < s.len() {
        assert(b[j as int] == s[(o + j) as int]);
        lemma_skip_shift(s, o, j + 1);
    }
}

proof fn lemma_run_shift(st: State, s: Seq<u8>, o: nat, j: nat)
    requires
        o + j <= s.len(),
    ensures
        run(st, s, o + j) == (
            run(st, s.subrange(o as int, s.len() as int), j).0,
            o + run(st, s.subrange(o as int, s.len() as int), j).1,
        ),
    decreases s.len() - (o + j),
{
    let b = s.subrange(o as int, s.len() as int);
    if o + j < s.len() {
        assert(b[j as int] == s[(o + j) as int]);
        if let Some(next) = transition(st, s[(o + j) as int]) {
            lemma_run_shift(next, s, o, j + 1);
        }
    }
}

proof fn lemma_results_shift(s: Seq<u8>, o: nat, j: nat)
    requires
        o + j <= s.len(),
    ensures
        results(lex_from(s, o + j)) == results(lex_from(s.subrange(o as int, s.len() as int), j)),
    decreases s.len() - (o + j),
{
    let b = s.subrange(o as int, s.len() as int);
    lemma_skip_shift(s, o, j);
    lemma_skip_space(b, j);
    lemma_lex_steps(s, o + j);
    lemma_lex_steps(b, j);
    let k = skip_space(b, j);
    if k < b.len() {
        assert(b[k as int] == s[(o + k) as int]);
        if let Some(st) = opening_state(b[k as int]) {
            lemma_run_shift(st, s, o, k + 1);
            lemma_run_bounds(st, b, k + 1);
            let end = run(st, b, k + 1).1;
            assert(s.subrange((o + k) as int, (o + end) as int) =~= b.subrange(k as int, end as int));
        } else {
            assert(s.subrange((o + k) as int, (o + k + 1) as int) =~= b.subrange(k as int, k + 1 as int));
        }
        let step = scan_at(b, j)->Some_0;
        let moved = scan_at(s, o + j)->Some_0;
        assert(moved.result == step.result && moved.end == o + step.end);
        lemma_results_shift(s, o, step.end);
        lemma_results_concat(seq![step], lex_from(b, step.end));
        lemma_results_concat(seq![moved], lex_from(s, moved.end));
        assert(results(seq![step]) =~= results(seq![moved]));
    } else {
        assert(results(lex_from(s, o + j)) =~= results(lex_from(b, j)));
    }
}

/// A whitespace byte splits the input: the results of `s` are those of the part
/// before it followed by those of the part after it. So input can be lexed a line
/// at a time.
pub proof fn lemma_split_at_space(s: Seq<u8>, m: nat)
    requires
        m < s.len(),
        is_space(s[m as int]),
    ensures
        results(lex(s)) == results(lex(s.subrange(0, m as int))) + results(
            lex(s.subrange((m + 1) as int, s.len() as int)),
        ),
{
    lemma_results_before_space(s, 0, m);
    lemma_results_shift(s, m + 1, 0);
}

} // verus!
