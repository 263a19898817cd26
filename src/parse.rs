use vstd::prelude::*;
use vstd::std_specs::iter::IteratorSpec;
use crate::bag::Bag;
use crate::condition::{Condition, cond_view};
use crate::model::{
    CondModel, PatModel, all_s, and_s, and_tail_s, any_items_s, any_s, at_s, atom_s, canon,
    cond_atom_s, cond_s, condition_s, digit_end, digits_value, either_tail_s, number_s, or_tail_s,
    parses_s, pattern_s, seq_s, seq_tail_s, starts_atom_s, take_s, unique_s, cond_symbols_in, cond_text, decimal, digit_char, emit, is_digit_char,
    lemma_canon_one, lemma_canon_split, lemma_text_single, list_text, plain_alphabet, symbols_in, text_of, zero_run,
};
use crate::pattern::{Pattern, lemma_list_view, lemma_list_view_push, list_view, pat_view};

verus! {

broadcast use vstd::seq::group_seq_axioms, vstd::std_specs::vec::group_vec_axioms;

/// What went wrong in a parse.
#[derive(Clone, Copy, Debug, PartialEq, Eq, Structural)]
pub enum ParseErrorKind {
    /// A character that no rule of the grammar accepts here.
    Unexpected(char),
    /// The text ended where more was needed.
    UnexpectedEnd,
    /// A number too large for a `usize`.
    NumberTooLarge,
}

/// A grammar error: what went wrong, and at which character offset.
#[derive(Clone, Copy, Debug, PartialEq, Eq, Structural)]
pub struct ParseError {
    pub kind: ParseErrorKind,
    pub position: usize,
}

/// The characters of `s`, in order.
fn chars_of(s: &str) -> (r: Vec<char>)
    ensures
        r@ == s@,
{
    broadcast use vstd::string::axiom_spec_iter, vstd::string::next_postcondition;

    let mut it = s.chars();
    let mut v: Vec<char> = Vec::new();
    loop
        invariant
            it.obeys_prophetic_iter_laws(),
            v@ + it.remaining() == s@,
            it.decrease() is Some,
        ensures
            v@ == s@,
        decreases it.decrease()->0,
    {
        match it.next() {
            Some(c) => {
                assert(v@.push(c) + it.remaining() =~= s@);
                v.push(c);
            },
            None => {
                assert(v@ =~= s@);
                break;
            },
        }
    }
    v
}

/// The error for the character at `pos`, or for the end of the text.
fn unexpected(t: &Vec<char>, pos: usize) -> (r: ParseError)
    requires
        pos <= t@.len(),
    ensures
        r.position == pos,
        pos < t@.len() ==> r.kind == ParseErrorKind::Unexpected(t@[pos as int]),
        pos == t@.len() ==> r.kind == ParseErrorKind::UnexpectedEnd,
{
    if pos < t.len() {
        ParseError { kind: ParseErrorKind::Unexpected(t[pos]), position: pos }
    } else {
        ParseError { kind: ParseErrorKind::UnexpectedEnd, position: pos }
    }
}

/// Whether the character at `pos` is `c`.
fn at(t: &Vec<char>, pos: usize, c: char) -> (r: bool)
    ensures
        r == (pos < t@.len() && t@[pos as int] == c),
{
    pos < t.len() && t[pos] == c
}

fn is_digit(c: char) -> (r: bool)
    ensures
        r == ('0' <= c && c <= '9'),
{
    '0' <= c && c <= '9'
}

/// Whether a pattern atom can begin at `pos`.
fn starts_atom<B: Bag>(t: &Vec<char>, pos: usize) -> (r: bool)
    ensures
        r == starts_atom_s(t@, pos as int, B::alphabet()),
{
    if pos >= t.len() {
        return false;
    }
    let c = t[pos];
    c == '*' || c == '(' || c == '[' || B::has(c)
}

/// Parsed result ending at a later offset, or an error inside the text.
/// A parse from `pos` either ends at a later offset with a pattern over the
/// alphabet whose text is the canonical text of what it consumed, or fails
/// at an offset within the text.
pub open spec fn pat_result(
    r: Result<(Pattern, usize), ParseError>,
    t: Seq<char>,
    pos: usize,
    w: Seq<char>,
) -> bool {
    match r {
        Ok((p, e)) => pos < e <= t.len() && symbols_in(p@, w) && (plain_alphabet(w) ==> text_of(p@)
            == canon(t, pos as int, e as int)),
        Err(er) => er.position <= t.len(),
    }
}

/// The parse succeeded exactly where the grammar reads a tree, with that tree
/// and end.
pub open spec fn agrees_pat(r: Result<(Pattern, usize), ParseError>, s: Option<(PatModel, int)>) -> bool {
    match r {
        Ok((p, e)) => s == Some((p@, e as int)),
        Err(_) => s is None,
    }
}

pub open spec fn agrees_cond(r: Result<(Condition, usize), ParseError>, s: Option<(CondModel, int)>) -> bool {
    match r {
        Ok((c, e)) => s == Some((c@, e as int)),
        Err(_) => s is None,
    }
}

/// The parse, if it succeeded, ended on a character that is not a digit.
pub open spec fn ends_plain(r: Result<(Pattern, usize), ParseError>, t: Seq<char>, w: Seq<char>) -> bool {
    match r {
        Ok((_, e)) => plain_alphabet(w) ==> 0 < e <= t.len() && !is_digit_char(t[e - 1]),
        Err(_) => true,
    }
}

pub open spec fn cond_result(
    r: Result<(Condition, usize), ParseError>,
    t: Seq<char>,
    pos: usize,
    w: Seq<char>,
) -> bool {
    match r {
        Ok((c, e)) => pos < e <= t.len() && cond_symbols_in(c@, w) && (plain_alphabet(w)
            ==> cond_text(c@) == canon(t, pos as int, e as int)),
        Err(er) => er.position <= t.len(),
    }
}

proof fn lemma_digit(c: char)
    requires
        is_digit_char(c),
    ensures
        digit_char((c as u32 - 48) as nat) == c,
        (c as u32 - 48) < 10,
        (c == '0') == ((c as u32 - 48) == 0),
{
}

proof fn lemma_digit_end_bounds(t: Seq<char>, i: int)
    requires
        0 <= i <= t.len(),
    ensures
        i <= digit_end(t, i) <= t.len(),
    decreases t.len() - i,
{
    if i < t.len() && is_digit_char(t[i]) {
        lemma_digit_end_bounds(t, i + 1);
    }
}

proof fn lemma_digits_monotone(t: Seq<char>, a: int, b: int, c: int)
    requires
        b <= c,
    ensures
        digits_value(t, a, b) <= digits_value(t, a, c),
    decreases c - b,
{
    if b < c {
        lemma_digits_monotone(t, a, b, c - 1);
        if c > a {
            assert(digits_value(t, a, c) == 10 * digits_value(t, a, c - 1) + (t[c - 1] as u32 - 48) as nat);
        }
    }
}

/// A decimal number: one digit or more, read from a position that does not
/// continue a run of digits.
fn parse_number(t: &Vec<char>, pos: usize) -> (r: Result<(usize, usize), ParseError>)
    requires
        pos <= t@.len(),
    ensures
        match r {
            Ok((n, e)) => pos < e <= t@.len() && ((pos == 0 || !is_digit_char(t@[pos - 1])) ==> decimal(
                n as nat,
            ) == canon(t@, pos as int, e as int)) && number_s(t@, pos as int) == Some(
                (n as nat, e as int),
            ),
            Err(er) => er.position <= t@.len() && number_s(t@, pos as int) is None,
        },
{
    let len = t.len();
    if !(pos < t.len() && is_digit(t[pos])) {
        return Err(unexpected(t, pos));
    }
    proof {
        lemma_digit(t@[pos as int]);
        assert(canon(t@, pos as int, pos as int) == Seq::<char>::empty());
    }
    let mut n: usize = (t[pos] as u32 - '0' as u32) as usize;
    assert(decimal(n as nat) =~= canon(t@, pos as int, pos as int) + seq![t@[pos as int]]);
    let mut i: usize = pos + 1;
    proof {
        assert(digits_value(t@, pos as int, pos as int) == 0);
        assert(digit_end(t@, pos as int) == digit_end(t@, pos + 1));
    }
    while i < t.len() && is_digit(t[i])
        invariant
            pos < i <= t@.len(),
            len == t@.len(),
            is_digit_char(t@[i - 1]),
            n == digits_value(t@, pos as int, i as int),
            digit_end(t@, pos as int) == digit_end(t@, i as int),
            (pos == 0 || !is_digit_char(t@[pos - 1])) ==> (n == 0) == zero_run(t@, i - 1),
            (pos == 0 || !is_digit_char(t@[pos - 1])) ==> decimal(n as nat) == canon(
                t@,
                pos as int,
                i - 1,
            ) + seq![t@[i - 1]],
        decreases t@.len() - i,
    {
        let c = t[i];
        proof {
            lemma_digit(c);
        }
        let d = (c as u32 - '0' as u32) as usize;
        if n > (usize::MAX - d) / 10 {
            proof {
                assert(n * 10 + d > usize::MAX) by (nonlinear_arith)
                    requires
                        n > (usize::MAX - d) / 10,
                        d < 10,
                ;
                assert(digits_value(t@, pos as int, i + 1) == 10 * n + d);
                assert(digit_end(t@, i as int) == digit_end(t@, i + 1));
                lemma_digit_end_bounds(t@, i + 1);
                lemma_digits_monotone(t@, pos as int, i + 1, digit_end(t@, pos as int));
            }
            return Err(ParseError { kind: ParseErrorKind::NumberTooLarge, position: pos });
        }
        let m = n * 10 + d;
        proof {
            lemma_canon_split(t@, pos as int, i - 1, i as int);
            lemma_canon_one(t@, i - 1);
            assert(canon(t@, pos as int, i as int) == canon(t@, pos as int, i - 1) + emit(t@, i - 1));
            if !(pos == 0 || !is_digit_char(t@[pos - 1])) {
            } else if n == 0 {
                assert(decimal(0) == seq!['0']);
                assert(canon(t@, pos as int, i - 1).len() == 0);
                assert(canon(t@, pos as int, i as int) =~= Seq::<char>::empty());
                assert(m == d);
                assert(decimal(m as nat) == seq![digit_char(d as nat)]);
                assert(decimal(m as nat) =~= canon(t@, pos as int, i as int) + seq![c]);
            } else {
                assert(emit(t@, i - 1) == seq![t@[i - 1]]);
                assert(m >= 10 && m / 10 == n && m % 10 == d) by (nonlinear_arith)
                    requires
                        m == n * 10 + d,
                        n > 0,
                        d < 10,
                ;
                assert(decimal(m as nat) == decimal(n as nat).push(digit_char(d as nat)));
                assert(decimal(m as nat) =~= canon(t@, pos as int, i as int) + seq![c]);
            }
            assert(zero_run(t@, i as int) == (c == '0' && zero_run(t@, i - 1)));
        }
        assert(digits_value(t@, pos as int, i + 1) == 10 * n + d);
        assert(digit_end(t@, i as int) == digit_end(t@, i + 1));
        n = m;
        i += 1;
    }
    assert(digit_end(t@, i as int) == i);
    proof {
        lemma_canon_split(t@, pos as int, i - 1, i as int);
        lemma_canon_one(t@, i - 1);
        assert(emit(t@, i - 1) == seq![t@[i - 1]]);
    }
    Ok((n, i))
}

proof fn lemma_view_box(p: Pattern)
    ensures
        pat_view(Pattern::Group(Box::new(p))) == PatModel::Group(Box::new(pat_view(p))),
        pat_view(Pattern::All(Box::new(p))) == PatModel::All(Box::new(pat_view(p))),
        pat_view(Pattern::Unique(Box::new(p))) == PatModel::Unique(Box::new(pat_view(p))),
{
}

proof fn lemma_view_take(p: Pattern, n: usize)
    ensures
        pat_view(Pattern::Take(Box::new(p), n)) == PatModel::Take(Box::new(pat_view(p)), n as nat),
{
}

proof fn lemma_view_cond(p: Pattern, c: Condition)
    ensures
        pat_view(Pattern::Condition(Box::new(p), Box::new(c))) == PatModel::Condition(
            Box::new(pat_view(p)),
            Box::new(cond_view(c)),
        ),
{
}

proof fn lemma_view_pair(p: Pattern, q: Pattern)
    ensures
        pat_view(Pattern::Concat(Box::new(p), Box::new(q))) == PatModel::Concat(
            Box::new(pat_view(p)),
            Box::new(pat_view(q)),
        ),
        pat_view(Pattern::Either(Box::new(p), Box::new(q))) == PatModel::Either(
            Box::new(pat_view(p)),
            Box::new(pat_view(q)),
        ),
{
}

proof fn lemma_view_leaf(c: char)
    ensures
        pat_view(Pattern::Single(c)) == PatModel::Single(c),
        pat_view(Pattern::Wildcard) == PatModel::Wildcard,
{
}

proof fn lemma_symbols_single(c: char, w: Seq<char>)
    ensures
        symbols_in(PatModel::Single(c), w) == w.contains(c),
{
}

proof fn lemma_view_any(v: Vec<Pattern>)
    ensures
        pat_view(Pattern::Any(v)) == PatModel::Any(list_view(v@)),
{
}

proof fn lemma_cond_view(a: Pattern, b: Pattern, n: usize, x: Condition, y: Condition)
    ensures
        cond_view(Condition::Before(a, b)) == CondModel::Before(pat_view(a), pat_view(b)),
        cond_view(Condition::After(a, b)) == CondModel::After(pat_view(a), pat_view(b)),
        cond_view(Condition::Count(a, n)) == CondModel::Count(pat_view(a), n as nat),
        cond_view(Condition::Location(a, n)) == CondModel::Location(pat_view(a), n as nat),
        cond_view(Condition::Group(Box::new(x))) == CondModel::Group(Box::new(cond_view(x))),
        cond_view(Condition::And(Box::new(x), Box::new(y))) == CondModel::And(
            Box::new(cond_view(x)),
            Box::new(cond_view(y)),
        ),
        cond_view(Condition::Or(Box::new(x), Box::new(y))) == CondModel::Or(
            Box::new(cond_view(x)),
            Box::new(cond_view(y)),
        ),
{
}

proof fn lemma_emit_plain(t: Seq<char>, i: int)
    requires
        0 <= i < t.len(),
        t[i] != ',' && t[i] != '\n' && t[i] != 'p' && !is_digit_char(t[i]),
    ensures
        canon(t, i, i + 1) == seq![t[i]],
{
    lemma_canon_one(t, i);
    assert(!zero_run(t, i));
}

proof fn lemma_canon3(t: Seq<char>, a: int, b: int, c: int, d: int)
    requires
        a <= b <= c <= d,
    ensures
        canon(t, a, d) == canon(t, a, b) + canon(t, b, c) + canon(t, c, d),
{
    lemma_canon_split(t, a, b, d);
    lemma_canon_split(t, b, c, d);
    assert(canon(t, a, b) + (canon(t, b, c) + canon(t, c, d)) =~= canon(t, a, b) + canon(t, b, c)
        + canon(t, c, d));
}

proof fn lemma_list_text_push(v: Seq<Pattern>, x: Pattern)
    ensures
        list_text(list_view(v.push(x))) == list_text(list_view(v)) + text_of(pat_view(x)),
{
    lemma_list_view_push(v, x);
    assert(list_view(v).push(pat_view(x)).drop_last() =~= list_view(v));
}

/// `atom := S | "*" | "(" pattern ")"`
#[verifier::rlimit(40)]
fn parse_atom<B: Bag>(t: &Vec<char>, pos: usize) -> (r: Result<(Pattern, usize), ParseError>)
    requires
        pos <= t@.len(),
    ensures
        agrees_pat(r, atom_s(t@, pos as int, B::alphabet())),
        pat_result(r, t@, pos, B::alphabet()),
        ends_plain(r, t@, B::alphabet()),
    decreases t@.len() - pos, 0nat,
{
    let len = t.len();
    assert(len == t@.len());
    if pos >= t.len() {
        return Err(unexpected(t, pos));
    }
    let c = t[pos];
    if c == '*' {
        proof {
            lemma_view_leaf(c);
            lemma_emit_plain(t@, pos as int);
        }
        return Ok((Pattern::Wildcard, pos + 1));
    }
    if c == '(' {
        let (inner, e) = Pattern::parser::<B>(t, pos + 1)?;
        if !at(t, e, ')') {
            return Err(unexpected(t, e));
        }
        proof {
            lemma_view_box(inner);
            lemma_emit_plain(t@, pos as int);
            lemma_emit_plain(t@, e as int);
            lemma_canon3(t@, pos as int, pos + 1, e as int, e + 1);
        }
        return Ok((Pattern::Group(Box::new(inner)), e + 1));
    }
    if B::has(c) {
        proof {
            lemma_view_leaf(c);
            lemma_symbols_single(c, B::alphabet());
            if plain_alphabet(B::alphabet()) {
                assert(B::alphabet().contains(c));
                lemma_emit_plain(t@, pos as int);
                lemma_text_single(c);
            }
        }
        return Ok((Pattern::Single(c), pos + 1));
    }
    Err(unexpected(t, pos))
}

/// `any := "[" atom* "]" | atom`
fn parse_any<B: Bag>(t: &Vec<char>, pos: usize) -> (r: Result<(Pattern, usize), ParseError>)
    requires
        pos <= t@.len(),
    ensures
        agrees_pat(r, any_s(t@, pos as int, B::alphabet())),
        pat_result(r, t@, pos, B::alphabet()),
        ends_plain(r, t@, B::alphabet()),
    decreases t@.len() - pos, 1nat,
{
    let len = t.len();
    assert(len == t@.len());
    if !at(t, pos, '[') {
        return parse_atom::<B>(t, pos);
    }
    let mut items: Vec<Pattern> = Vec::new();
    let mut i: usize = pos + 1;
    proof {
        assert(list_view(items@) =~= Seq::<PatModel>::empty());
        assert(canon(t@, pos + 1, pos + 1) == Seq::<char>::empty());
    }
    while !at(t, i, ']')
        invariant
            pos < i <= t@.len(),
            len == t@.len(),
            t@[pos as int] == '[',
            forall|j: int| 0 <= j < items@.len() ==> symbols_in(#[trigger] pat_view(items@[j]), B::alphabet()),
            plain_alphabet(B::alphabet()) ==> list_text(list_view(items@)) == canon(t@, pos + 1, i as int),
            any_items_s(t@, i as int, list_view(items@), B::alphabet()) == any_s(t@, pos as int, B::alphabet()),
        decreases t@.len() - i,
    {
        if i >= t.len() {
            return Err(unexpected(t, i));
        }
        let (p, e) = parse_atom::<B>(t, i)?;
        proof {
            lemma_list_text_push(items@, p);
            lemma_list_view_push(items@, p);
            lemma_canon_split(t@, pos + 1, i as int, e as int);
        }
        items.push(p);
        i = e;
    }
    proof {
        lemma_view_any(items);
        lemma_list_view(items@);
        lemma_emit_plain(t@, pos as int);
        lemma_emit_plain(t@, i as int);
        lemma_canon3(t@, pos as int, pos + 1, i as int, i + 1);
    }
    Ok((Pattern::Any(items), i + 1))
}

/// `all := any "!"?`
fn parse_all<B: Bag>(t: &Vec<char>, pos: usize) -> (r: Result<(Pattern, usize), ParseError>)
    requires
        pos <= t@.len(),
    ensures
        agrees_pat(r, all_s(t@, pos as int, B::alphabet())),
        pat_result(r, t@, pos, B::alphabet()),
        ends_plain(r, t@, B::alphabet()),
    decreases t@.len() - pos, 2nat,
{
    let len = t.len();
    assert(len == t@.len());
    let (p, e) = parse_any::<B>(t, pos)?;
    if at(t, e, '!') {
        proof {
            lemma_view_box(p);
            lemma_emit_plain(t@, e as int);
            lemma_canon_split(t@, pos as int, e as int, e + 1);
        }
        return Ok((Pattern::All(Box::new(p)), e + 1));
    }
    Ok((p, e))
}

/// `take := all ("p"? NUMBER)?`
fn parse_take<B: Bag>(t: &Vec<char>, pos: usize) -> (r: Result<(Pattern, usize), ParseError>)
    requires
        pos <= t@.len(),
    ensures
        agrees_pat(r, take_s(t@, pos as int, B::alphabet())),
        pat_result(r, t@, pos, B::alphabet()),
    decreases t@.len() - pos, 3nat,
{
    let len = t.len();
    assert(len == t@.len());
    let (p, e) = parse_all::<B>(t, pos)?;
    let mut d = e;
    if at(t, d, 'p') && d + 1 < t.len() && is_digit(t[d + 1]) {
        d = d + 1;
    }
    if d < t.len() && is_digit(t[d]) {
        let (n, f) = parse_number(t, d)?;
        proof {
            lemma_view_take(p, n);
            lemma_canon3(t@, pos as int, e as int, d as int, f as int);
            if d > e {
                lemma_canon_one(t@, e as int);
                assert(canon(t@, e as int, d as int) == Seq::<char>::empty());
            } else {
                assert(canon(t@, e as int, d as int) == Seq::<char>::empty());
            }
            assert(text_of(PatModel::Take(Box::new(pat_view(p)), n as nat)) == text_of(pat_view(p))
                + decimal(n as nat));
        }
        return Ok((Pattern::Take(Box::new(p), n), f));
    }
    Ok((p, e))
}

/// `atomc := "#" take "=" NUMBER | "@" take "=" NUMBER | take "<" take
///         | take ">" take | "(" condition ")"`
fn parse_cond_atom<B: Bag>(t: &Vec<char>, pos: usize) -> (r: Result<(Condition, usize), ParseError>)
    requires
        pos <= t@.len(),
    ensures
        agrees_cond(r, cond_atom_s(t@, pos as int, B::alphabet())),
        cond_result(r, t@, pos, B::alphabet()),
    decreases t@.len() - pos, 4nat,
{
    let len = t.len();
    assert(len == t@.len());
    if at(t, pos, '#') || at(t, pos, '@') {
        let (p, e) = parse_take::<B>(t, pos + 1)?;
        if !at(t, e, '=') {
            return Err(unexpected(t, e));
        }
        let (n, f) = parse_number(t, e + 1)?;
        proof {
            lemma_cond_view(p, p, n, Condition::Before(p, p), Condition::Before(p, p));
            lemma_emit_plain(t@, pos as int);
            lemma_emit_plain(t@, e as int);
            lemma_canon3(t@, pos as int, pos + 1, e as int, e + 1);
            lemma_canon_split(t@, pos as int, e + 1, f as int);
        }
        if t[pos] == '#' {
            proof {
                assert(cond_text(CondModel::Count(pat_view(p), n as nat)) =~= seq!['#'] + text_of(pat_view(p))
                    + seq!['='] + decimal(n as nat));
            }
            return Ok((Condition::Count(p, n), f));
        }
        proof {
            assert(cond_text(CondModel::Location(pat_view(p), n as nat)) =~= seq!['@'] + text_of(pat_view(p))
                + seq!['='] + decimal(n as nat));
        }
        return Ok((Condition::Location(p, n), f));
    }
    match parse_take::<B>(t, pos) {
        Ok((a, e)) => {
            if at(t, e, '<') || at(t, e, '>') {
                match parse_take::<B>(t, e + 1) {
                    Ok((b, f)) => {
                        proof {
                            lemma_cond_view(a, b, 0, Condition::Before(a, b), Condition::Before(a, b));
                            lemma_emit_plain(t@, e as int);
                            lemma_canon3(t@, pos as int, e as int, e + 1, f as int);
                        }
                        if t[e] == '<' {
                            return Ok((Condition::Before(a, b), f));
                        }
                        return Ok((Condition::After(a, b), f));
                    },
                    Err(er) => {
                        if !at(t, pos, '(') {
                            return Err(er);
                        }
                    },
                }
            } else if !at(t, pos, '(') {
                return Err(unexpected(t, e));
            }
        },
        Err(er) => {
            if !at(t, pos, '(') {
                return Err(er);
            }
        },
    }
    let (c, e) = Condition::parser::<B>(t, pos + 1)?;
    if !at(t, e, ')') {
        return Err(unexpected(t, e));
    }
    proof {
        lemma_cond_view(Pattern::Wildcard, Pattern::Wildcard, 0, c, c);
        lemma_emit_plain(t@, pos as int);
        lemma_emit_plain(t@, e as int);
        lemma_canon3(t@, pos as int, pos + 1, e as int, e + 1);
    }
    Ok((Condition::Group(Box::new(c)), e + 1))
}

/// `and := atomc ("&" atomc)*`
fn parse_cond_and<B: Bag>(t: &Vec<char>, pos: usize) -> (r: Result<(Condition, usize), ParseError>)
    requires
        pos <= t@.len(),
    ensures
        agrees_cond(r, and_s(t@, pos as int, B::alphabet())),
        cond_result(r, t@, pos, B::alphabet()),
    decreases t@.len() - pos, 5nat,
{
    let len = t.len();
    assert(len == t@.len());
    let (mut acc, mut e) = parse_cond_atom::<B>(t, pos)?;
    while at(t, e, '&')
        invariant
            pos < e <= t@.len(),
            len == t@.len(),
            cond_symbols_in(acc@, B::alphabet()),
            plain_alphabet(B::alphabet()) ==> cond_text(acc@) == canon(t@, pos as int, e as int),
            and_tail_s(t@, acc@, e as int, B::alphabet()) == and_s(t@, pos as int, B::alphabet()),
        decreases t@.len() - e,
    {
        let (c, f) = parse_cond_atom::<B>(t, e + 1)?;
        proof {
            lemma_cond_view(Pattern::Wildcard, Pattern::Wildcard, 0, acc, c);
            lemma_emit_plain(t@, e as int);
            lemma_canon3(t@, pos as int, e as int, e + 1, f as int);
        }
        acc = Condition::And(Box::new(acc), Box::new(c));
        e = f;
    }
    Ok((acc, e))
}

/// `cond := take ("{" condition "}")?`
fn parse_cond<B: Bag>(t: &Vec<char>, pos: usize) -> (r: Result<(Pattern, usize), ParseError>)
    requires
        pos <= t@.len(),
    ensures
        agrees_pat(r, cond_s(t@, pos as int, B::alphabet())),
        pat_result(r, t@, pos, B::alphabet()),
    decreases t@.len() - pos, 7nat,
{
    let len = t.len();
    assert(len == t@.len());
    let (p, e) = parse_take::<B>(t, pos)?;
    if !at(t, e, '{') {
        return Ok((p, e));
    }
    let (c, f) = Condition::parser::<B>(t, e + 1)?;
    if !at(t, f, '}') {
        return Err(unexpected(t, f));
    }
    proof {
        lemma_view_cond(p, c);
        lemma_emit_plain(t@, e as int);
        lemma_emit_plain(t@, f as int);
        lemma_canon3(t@, pos as int, e as int, e + 1, f as int);
        lemma_canon_split(t@, pos as int, f as int, f + 1);
    }
    Ok((Pattern::Condition(Box::new(p), Box::new(c)), f + 1))
}

/// `seq := cond (","? cond)*`
fn parse_seq<B: Bag>(t: &Vec<char>, pos: usize) -> (r: Result<(Pattern, usize), ParseError>)
    requires
        pos <= t@.len(),
    ensures
        agrees_pat(r, seq_s(t@, pos as int, B::alphabet())),
        pat_result(r, t@, pos, B::alphabet()),
    decreases t@.len() - pos, 8nat,
{
    let len = t.len();
    assert(len == t@.len());
    let (mut acc, mut e) = parse_cond::<B>(t, pos)?;
    loop
        invariant
            pos < e <= t@.len(),
            len == t@.len(),
            symbols_in(acc@, B::alphabet()),
            plain_alphabet(B::alphabet()) ==> text_of(acc@) == canon(t@, pos as int, e as int),
            seq_tail_s(t@, acc@, e as int, B::alphabet()) == seq_s(t@, pos as int, B::alphabet()),
        ensures
            seq_tail_s(t@, acc@, e as int, B::alphabet()) == Some((acc@, e as int)),
        decreases t@.len() - e,
    {
        let next = if at(t, e, ',') {
            e + 1
        } else {
            e
        };
        if !starts_atom::<B>(t, next) {
            break;
        }
        let (p, f) = parse_cond::<B>(t, next)?;
        proof {
            lemma_view_pair(acc, p);
            lemma_canon3(t@, pos as int, e as int, next as int, f as int);
            if next > e {
                lemma_canon_one(t@, e as int);
            }
            assert(canon(t@, e as int, next as int) == Seq::<char>::empty());
        }
        acc = Pattern::Concat(Box::new(acc), Box::new(p));
        e = f;
    }
    Ok((acc, e))
}

/// `unique := seq "?"?`
fn parse_unique<B: Bag>(t: &Vec<char>, pos: usize) -> (r: Result<(Pattern, usize), ParseError>)
    requires
        pos <= t@.len(),
    ensures
        agrees_pat(r, unique_s(t@, pos as int, B::alphabet())),
        pat_result(r, t@, pos, B::alphabet()),
    decreases t@.len() - pos, 9nat,
{
    let len = t.len();
    assert(len == t@.len());
    let (p, e) = parse_seq::<B>(t, pos)?;
    if at(t, e, '?') {
        proof {
            lemma_view_box(p);
            lemma_emit_plain(t@, e as int);
            lemma_canon_split(t@, pos as int, e as int, e + 1);
        }
        return Ok((Pattern::Unique(Box::new(p)), e + 1));
    }
    Ok((p, e))
}

impl Pattern {
    /// `pattern := unique (("\n" | ";") unique)*`, from offset `pos`.
    pub fn parser<B: Bag>(t: &Vec<char>, pos: usize) -> (r: Result<(Pattern, usize), ParseError>)
        requires
            pos <= t@.len(),
        ensures
            pat_result(r, t@, pos, B::alphabet()),
            agrees_pat(r, pattern_s(t@, pos as int, B::alphabet())),
        decreases t@.len() - pos, 10nat,
    {
        let len = t.len();
        assert(len == t@.len());
        let (mut acc, mut e) = parse_unique::<B>(t, pos)?;
        while at(t, e, ';') || at(t, e, '\n')
            invariant
                pos < e <= t@.len(),
                len == t@.len(),
                symbols_in(acc@, B::alphabet()),
                plain_alphabet(B::alphabet()) ==> text_of(acc@) == canon(t@, pos as int, e as int),
                either_tail_s(t@, acc@, e as int, B::alphabet()) == pattern_s(t@, pos as int, B::alphabet()),
            decreases t@.len() - e,
        {
            let (p, f) = parse_unique::<B>(t, e + 1)?;
            proof {
                lemma_view_pair(acc, p);
                lemma_canon_one(t@, e as int);
                assert(!zero_run(t@, e as int));
                assert(canon(t@, e as int, e + 1) == seq![';']);
                lemma_canon3(t@, pos as int, e as int, e + 1, f as int);
            }
            acc = Pattern::Either(Box::new(acc), Box::new(p));
            e = f;
        }
        Ok((acc, e))
    }

    /// Parses a whole text as a pattern over the alphabet of `B`. Where no
    /// symbol of the alphabet is a comma, a line break, `p` or a digit, the
    /// text of the result is the input with commas and selection markers
    /// dropped, line breaks read as `;` and numbers without leading zeros.
    pub fn new<B: Bag>(i: &str) -> (r: Result<Pattern, ParseError>)
        ensures
            match r {
                Ok(p) => parses_s(i@, B::alphabet()) == Some(p@) && symbols_in(p@, B::alphabet()) && (
                plain_alphabet(B::alphabet()) ==> text_of(p@) == canon(i@, 0, i@.len() as int)),
                Err(e) => parses_s(i@, B::alphabet()) is None && e.position <= i@.len(),
            },
    {
        let t = chars_of(i);
        let (p, e) = Pattern::parser::<B>(&t, 0)?;
        if e < t.len() {
            return Err(unexpected(&t, e));
        }
        Ok(p)
    }
}

impl Condition {
    /// `condition := and ("|" and)*`, from offset `pos`.
    pub fn parser<B: Bag>(t: &Vec<char>, pos: usize) -> (r: Result<(Condition, usize), ParseError>)
        requires
            pos <= t@.len(),
        ensures
            cond_result(r, t@, pos, B::alphabet()),
            agrees_cond(r, condition_s(t@, pos as int, B::alphabet())),
        decreases t@.len() - pos, 6nat,
    {
        let len = t.len();
        assert(len == t@.len());
        let (mut acc, mut e) = parse_cond_and::<B>(t, pos)?;
        while at(t, e, '|')
            invariant
                pos < e <= t@.len(),
                len == t@.len(),
                cond_symbols_in(acc@, B::alphabet()),
                plain_alphabet(B::alphabet()) ==> cond_text(acc@) == canon(t@, pos as int, e as int),
                or_tail_s(t@, acc@, e as int, B::alphabet()) == condition_s(t@, pos as int, B::alphabet()),
            decreases t@.len() - e,
        {
            let (c, f) = parse_cond_and::<B>(t, e + 1)?;
            proof {
                lemma_cond_view(Pattern::Wildcard, Pattern::Wildcard, 0, acc, c);
                lemma_emit_plain(t@, e as int);
                lemma_canon3(t@, pos as int, e as int, e + 1, f as int);
            }
            acc = Condition::Or(Box::new(acc), Box::new(c));
            e = f;
        }
        Ok((acc, e))
    }
}

} // verus!
