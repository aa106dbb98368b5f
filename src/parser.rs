//! The tokenizer: program text to a tree of atoms, lists and integers,
//! stated against a reader over the text's characters.

use crate::diagnostic::Diagnostic;
use crate::text::push_char;
use vstd::prelude::*;
use vstd::std_specs::iter::IteratorSpec;
use vstd::string::*;

verus! {

broadcast use vstd::string::group_string_axioms;

/// A raw token tree: an atom, a parenthesised list, or an integer literal.
#[derive(Debug, PartialEq)]
pub enum Value {
    Atom(String),
    Array(Vec<Value>),
    Int64(i64),
}

/// The mathematical model of a token tree.
pub enum Token {
    Atom(Seq<char>),
    List(Seq<Token>),
    Int64(i64),
}

/// The model of a token tree.
pub open spec fn token_view(v: Value) -> Token
    decreases v,
{
    match v {
        Value::Atom(s) => Token::Atom(s@),
        Value::Int64(n) => Token::Int64(n),
        Value::Array(items) => Token::List(
            Seq::new(items@.len(), |i: int| if 0 <= i < items@.len() { token_view(items@[i]) } else { Token::Int64(0) }),
        ),
    }
}

impl View for Value {
    type V = Token;

    open spec fn view(&self) -> Token {
        token_view(*self)
    }
}

/// The models of a sequence of token trees.
pub open spec fn tokens_view(s: Seq<Value>) -> Seq<Token> {
    Seq::new(s.len(), |i: int| s[i]@)
}

/// Unicode's White_Space property.
pub open spec fn spec_is_whitespace(c: char) -> bool {
    ('\u{9}' <= c <= '\u{d}') || c == ' ' || c == '\u{85}' || c == '\u{a0}' || c == '\u{1680}'
        || ('\u{2000}' <= c <= '\u{200a}') || c == '\u{2028}' || c == '\u{2029}' || c == '\u{202f}'
        || c == '\u{205f}' || c == '\u{3000}'
}

/// Whether `c` is whitespace in Unicode's sense.
#[verifier::when_used_as_spec(spec_is_whitespace)]
pub fn is_whitespace(c: char) -> (r: bool)
    ensures
        r == spec_is_whitespace(c),
{
    ('\u{9}' <= c && c <= '\u{d}') || c == ' ' || c == '\u{85}' || c == '\u{a0}' || c == '\u{1680}'
        || ('\u{2000}' <= c && c <= '\u{200a}') || c == '\u{2028}' || c == '\u{2029}' || c
        == '\u{202f}' || c == '\u{205f}' || c == '\u{3000}'
}

/// Whitespace or a bracket.
pub open spec fn spec_is_word_delimiter(c: char) -> bool {
    spec_is_whitespace(c) || c == '(' || c == ')'
}

/// Whether `c` ends a word: whitespace or a bracket.
#[verifier::when_used_as_spec(spec_is_word_delimiter)]
pub fn is_word_delimiter(c: char) -> (r: bool)
    ensures
        r == spec_is_word_delimiter(c),
{
    is_whitespace(c) || c == '(' || c == ')'
}

/// The first position at or after `i` that is not whitespace.
pub open spec fn skip_ws(cs: Seq<char>, i: int) -> int
    decreases cs.len() - i,
{
    if 0 <= i < cs.len() && spec_is_whitespace(cs[i]) {
        skip_ws(cs, i + 1)
    } else {
        i
    }
}

/// The end of the word that starts at `i`.
pub open spec fn word_end(cs: Seq<char>, i: int) -> int
    decreases cs.len() - i,
{
    if 0 <= i < cs.len() && !spec_is_word_delimiter(cs[i]) {
        word_end(cs, i + 1)
    } else {
        i
    }
}

/// An ASCII decimal digit.
pub open spec fn is_digit(c: char) -> bool {
    '0' <= c <= '9'
}

/// Every character of `w` is a decimal digit.
pub open spec fn all_digits(w: Seq<char>) -> bool {
    forall|k: int| 0 <= k < w.len() ==> is_digit(#[trigger] w[k])
}

/// The value of a string of decimal digits.
pub open spec fn digits_value(w: Seq<char>) -> int
    decreases w.len(),
{
    if w.len() == 0 {
        0
    } else {
        digits_value(w.drop_last()) * 10 + (w.last() as int - '0' as int)
    }
}

/// The integer that `w` spells in base ten, with an optional leading `-`,
/// if it spells one that fits in 64 bits.
pub open spec fn spec_parse_int(w: Seq<char>) -> Option<i64> {
    let neg = w.len() > 0 && w[0] == '-';
    let digits = if neg { w.drop_first() } else { w };
    let v = if neg { -digits_value(digits) } else { digits_value(digits) };
    if digits.len() > 0 && all_digits(digits) && i64::MIN <= v <= i64::MAX {
        Some(v as i64)
    } else {
        None
    }
}

/// Line and column, both from 1, of position `i`.
pub open spec fn position(cs: Seq<char>, i: int) -> (int, int)
    decreases i,
{
    if i <= 0 {
        (1, 1)
    } else {
        let (l, c) = position(cs, i - 1);
        if cs[i - 1] == '\n' {
            (l + 1, 1)
        } else {
            (l, c + 1)
        }
    }
}

/// The diagnostic for a bracket at position `i` that has no partner.
pub open spec fn unbalanced_at(cs: Seq<char>, i: int) -> Diagnostic {
    Diagnostic::UnbalancedBracket {
        line: position(cs, i).0 as usize,
        column: position(cs, i).1 as usize,
    }
}

/// A token tree read from `cs` and the position after it, or what went wrong.
pub type Parsed = Result<(Token, int), Seq<Diagnostic>>;

/// Reads one token tree that starts at `i`, which is not whitespace.
pub open spec fn parse_at(cs: Seq<char>, i: int) -> Parsed
    decreases cs.len() - i, 0int,
{
    if i < 0 || i >= cs.len() {
        Err(seq![Diagnostic::UnexpectedEnd])
    } else if cs[i] == ')' {
        Err(seq![unbalanced_at(cs, i)])
    } else if cs[i] == '(' {
        parse_items(cs, i, i + 1, Seq::empty())
    } else {
        let e = word_end(cs, i);
        let w = cs.subrange(i, e);
        match spec_parse_int(w) {
            Some(n) => Ok((Token::Int64(n), e)),
            None => Ok((Token::Atom(w), e)),
        }
    }
}

/// Reads the rest of the list opened at `open`, from `i` on, after the items
/// `acc`. A list that is never closed reports the end of input and the
/// position of its bracket, after whatever an inner list reported.
pub open spec fn parse_items(cs: Seq<char>, open: int, i: int, acc: Seq<Token>) -> Parsed
    decreases cs.len() - i, 1int,
{
    let j = skip_ws(cs, i);
    proof {
        lemma_skip_ws_bounds(cs, i);
    }
    if j < 0 || j >= cs.len() || i < 0 {
        Err(seq![Diagnostic::UnexpectedEnd, unbalanced_at(cs, open)])
    } else if cs[j] == ')' {
        Ok((Token::List(acc), j + 1))
    } else {
        match parse_at(cs, j) {
            Err(d) => Err(d + seq![Diagnostic::UnexpectedEnd, unbalanced_at(cs, open)]),
            Ok((t, e)) => if j < e <= cs.len() {
                parse_items(cs, open, e, acc.push(t))
            } else {
                Err(Seq::empty())
            },
        }
    }
}

/// The token tree that the whole of `cs` holds, or what went wrong.
pub open spec fn tokenize(cs: Seq<char>) -> Result<Token, Seq<Diagnostic>> {
    match parse_at(cs, skip_ws(cs, 0)) {
        Err(d) => Err(d),
        Ok((t, e)) => {
            let k = skip_ws(cs, e);
            if 0 <= k < cs.len() {
                if cs[k] == ')' {
                    Err(seq![unbalanced_at(cs, k)])
                } else {
                    Err(
                        seq![Diagnostic::TrailingInput {
                            line: position(cs, k).0 as usize,
                            column: position(cs, k).1 as usize,
                        }],
                    )
                }
            } else {
                Ok(t)
            }
        },
    }
}

/// Skipping whitespace moves forward, stays within the text, and stops at a
/// character that is not whitespace.
pub proof fn lemma_skip_ws_bounds(cs: Seq<char>, i: int)
    ensures
        skip_ws(cs, i) >= i,
        0 <= i && skip_ws(cs, i) < cs.len() ==> !spec_is_whitespace(cs[skip_ws(cs, i)]),
        0 <= i <= cs.len() ==> skip_ws(cs, i) <= cs.len(),
    decreases cs.len() - i,
{
    if 0 <= i < cs.len() && spec_is_whitespace(cs[i]) {
        lemma_skip_ws_bounds(cs, i + 1);
    }
}

/// A word ends at or after where it starts, within the text.
pub proof fn lemma_word_end_bounds(cs: Seq<char>, i: int)
    ensures
        word_end(cs, i) >= i,
        0 <= i <= cs.len() ==> word_end(cs, i) <= cs.len(),
    decreases cs.len() - i,
{
    if 0 <= i < cs.len() && !spec_is_word_delimiter(cs[i]) {
        lemma_word_end_bounds(cs, i + 1);
    }
}


/// A successful read ends after where it started, within the text.
pub proof fn lemma_parse_advances(cs: Seq<char>, i: int)
    requires
        0 <= i < cs.len() ==> !spec_is_whitespace(cs[i]),
    ensures
        parse_at(cs, i) is Ok ==> i < parse_at(cs, i)->Ok_0.1 <= cs.len(),
    decreases cs.len() - i, 0int,
{
    if 0 <= i < cs.len() && cs[i] != ')' {
        if cs[i] == '(' {
            lemma_items_advance(cs, i, i + 1, Seq::empty());
        } else {
            lemma_word_end_bounds(cs, i);
            lemma_word_end_bounds(cs, i + 1);
        }
    }
}

pub proof fn lemma_items_advance(cs: Seq<char>, open: int, i: int, acc: Seq<Token>)
    ensures
        parse_items(cs, open, i, acc) is Ok ==> i < parse_items(cs, open, i, acc)->Ok_0.1
            <= cs.len(),
    decreases cs.len() - i, 1int,
{
    lemma_skip_ws_bounds(cs, i);
    let j = skip_ws(cs, i);
    if 0 <= i && 0 <= j < cs.len() && cs[j] != ')' {
        lemma_parse_advances(cs, j);
        if let Ok((t, e)) = parse_at(cs, j) {
            if j < e <= cs.len() {
                lemma_items_advance(cs, open, e, acc.push(t));
            }
        }
    }
}

/// A failed read reports at least one diagnostic.
pub proof fn lemma_parse_failure_reported(cs: Seq<char>, i: int)
    requires
        0 <= i < cs.len() ==> !spec_is_whitespace(cs[i]),
    ensures
        parse_at(cs, i) matches Err(d) ==> d.len() > 0,
    decreases cs.len() - i, 0int,
{
    if 0 <= i < cs.len() && cs[i] == '(' {
        lemma_items_failure_reported(cs, i, i + 1, Seq::empty());
    }
}

proof fn lemma_items_failure_reported(cs: Seq<char>, open: int, i: int, acc: Seq<Token>)
    ensures
        parse_items(cs, open, i, acc) matches Err(d) ==> d.len() > 0,
    decreases cs.len() - i, 1int,
{
    lemma_skip_ws_bounds(cs, i);
    let j = skip_ws(cs, i);
    if 0 <= i && 0 <= j < cs.len() && cs[j] != ')' {
        lemma_parse_advances(cs, j);
        if let Ok((t, e)) = parse_at(cs, j) {
            lemma_items_failure_reported(cs, open, e, acc.push(t));
        }
    }
}

/// Reading a whole text fails only with a diagnostic.
pub proof fn lemma_tokenize_failure_reported(cs: Seq<char>)
    ensures
        tokenize(cs) matches Err(d) ==> d.len() > 0,
{
    lemma_skip_ws_bounds(cs, 0);
    lemma_parse_failure_reported(cs, skip_ws(cs, 0));
}

/// The model of what reading a token tree returned.
pub open spec fn parsed_view(r: Result<(Value, usize), Vec<Diagnostic>>) -> Parsed {
    match r {
        Ok((v, e)) => Ok((v@, e as int)),
        Err(d) => Err(d@),
    }
}

/// The characters of `text`, in order.
fn chars_of(text: &str) -> (r: Vec<char>)
    ensures
        r@ == text@,
{
    let mut out: Vec<char> = Vec::new();
    let mut it = text.chars();
    loop
        invariant
            out@ + it.remaining() == text@,
            it.decrease() is Some,
        ensures
            out@ == text@,
        decreases it.decrease()->0,
    {
        match it.next() {
            Some(c) => out.push(c),
            None => {
                assert(out@ =~= text@);
                break;
            },
        }
    }
    out
}

/// Line and column of position `i`.
fn position_of(cs: &Vec<char>, i: usize) -> (r: (usize, usize))
    requires
        i < cs@.len(),
    ensures
        (r.0 as int, r.1 as int) == position(cs@, i as int),
{
    let n = cs.len();
    let mut line: usize = 1;
    let mut col: usize = 1;
    let mut k: usize = 0;
    while k < i
        invariant
            k <= i < n,
            n == cs@.len(),
            (line as int, col as int) == position(cs@, k as int),
            1 <= line <= k + 1,
            1 <= col <= k + 1,
        decreases i - k,
    {
        if cs[k] == '\n' {
            line += 1;
            col = 1;
        } else {
            col += 1;
        }
        k += 1;
    }
    (line, col)
}

fn unbalanced(cs: &Vec<char>, i: usize) -> (r: Diagnostic)
    requires
        i < cs@.len(),
    ensures
        r == unbalanced_at(cs@, i as int),
{
    let (line, column) = position_of(cs, i);
    Diagnostic::UnbalancedBracket { line, column }
}

/// The first position at or after `i` that is not whitespace.
fn skip_whitespace(cs: &Vec<char>, i: usize) -> (r: usize)
    requires
        i <= cs@.len(),
    ensures
        r as int == skip_ws(cs@, i as int),
        i <= r <= cs@.len(),
{
    let mut j = i;
    while j < cs.len() && is_whitespace(cs[j])
        invariant
            i <= j <= cs@.len(),
            skip_ws(cs@, j as int) == skip_ws(cs@, i as int),
        decreases cs.len() - j,
    {
        j += 1;
    }
    j
}

/// The word that starts at the first position at or after `i` that is not
/// whitespace, and the position after it.
fn next_word(cs: &Vec<char>, i: usize) -> (r: (String, usize))
    requires
        i <= cs@.len(),
    ensures
        r.1 as int == word_end(cs@, skip_ws(cs@, i as int)),
        r.0@ == cs@.subrange(skip_ws(cs@, i as int), r.1 as int),
        skip_ws(cs@, i as int) <= r.1 <= cs@.len(),
{
    let start = skip_whitespace(cs, i);
    let mut out = String::new();
    let mut j = start;
    while j < cs.len() && !is_word_delimiter(cs[j])
        invariant
            start <= j <= cs@.len(),
            start as int == skip_ws(cs@, i as int),
            word_end(cs@, j as int) == word_end(cs@, start as int),
            out@ == cs@.subrange(start as int, j as int),
        decreases cs.len() - j,
    {
        push_char(&mut out, cs[j]);
        assert(out@ =~= cs@.subrange(start as int, j + 1));
        j += 1;
    }
    (out, j)
}

/// One more digit: ten times the value so far, plus the digit.
proof fn lemma_digits_step(w: Seq<char>, k: int)
    requires
        0 <= k < w.len(),
    ensures
        digits_value(w.subrange(0, k + 1)) == digits_value(w.subrange(0, k)) * 10 + (w[k] as int
            - '0' as int),
{
    assert(w.subrange(0, k + 1).drop_last() =~= w.subrange(0, k));
}

/// A string of digits has a value of at least zero.
proof fn lemma_digits_nonneg(w: Seq<char>)
    requires
        forall|k: int| 0 <= k < w.len() ==> is_digit(#[trigger] w[k]),
    ensures
        digits_value(w) >= 0,
    decreases w.len(),
{
    if w.len() > 0 {
        assert(forall|k: int| 0 <= k < w.len() - 1 ==> w.drop_last()[k] == w[k]);
        lemma_digits_nonneg(w.drop_last());
    }
}

/// The integer that `cs[i..e]` spells, if it spells one that fits in 64 bits.
#[verifier::loop_isolation(false)]
fn parse_int(cs: &Vec<char>, i: usize, e: usize) -> (r: Option<i64>)
    requires
        i <= e <= cs@.len(),
    ensures
        r == spec_parse_int(cs@.subrange(i as int, e as int)),
{
    let ghost w = cs@.subrange(i as int, e as int);
    let neg = i < e && cs[i] == '-';
    let start = if neg {
        i + 1
    } else {
        i
    };
    assert(neg == (w.len() > 0 && w[0] == '-'));
    let ghost digits = if neg {
        w.drop_first()
    } else {
        w
    };
    assert(digits =~= cs@.subrange(start as int, e as int));
    if start >= e {
        return None;
    }
    let limit: u64 = if neg {
        9223372036854775808
    } else {
        9223372036854775807
    };
    let mut v: u64 = 0;
    let mut over = false;
    let mut k = start;
    assert(digits.subrange(0, 0) =~= Seq::<char>::empty());
    while k < e
        invariant
            start <= k <= e,
            digits == cs@.subrange(start as int, e as int),
            forall|m: int| 0 <= m < k - start ==> is_digit(#[trigger] digits[m]),
            !over ==> v as int == digits_value(digits.subrange(0, k - start)) && v <= limit,
            over ==> digits_value(digits.subrange(0, k - start)) > limit,
        decreases e - k,
    {
        let c = cs[k];
        if !('0' <= c && c <= '9') {
            assert(!is_digit(digits[k - start]));
            proof {
                let sd = if w.len() > 0 && w[0] == '-' {
                    w.drop_first()
                } else {
                    w
                };
                assert(sd == digits);
                assert(!is_digit(sd[k - start]));
                assert(!all_digits(sd));
            }
            return None;
        }
        let d = (c as u32 - '0' as u32) as u64;
        proof {
            lemma_digits_step(digits, k - start);
            lemma_digits_nonneg(digits.subrange(0, k - start));
            assert(forall|m: int| 0 <= m < k - start ==> digits.subrange(0, k - start)[m] == digits[m]);
        }
        if !over {
            if v > (limit - d) / 10 {
                over = true;
            } else {
                v = v * 10 + d;
            }
        }
        k += 1;
    }
    assert(digits.subrange(0, k - start) =~= digits);
    if over {
        None
    } else if neg {
        if v == 9223372036854775808 {
            Some(i64::MIN)
        } else {
            Some(-(v as i64))
        }
    } else {
        Some(v as i64)
    }
}

/// Reads one token tree that starts at `i`, which is not whitespace.
fn parse_value(cs: &Vec<char>, i: usize) -> (r: Result<(Value, usize), Vec<Diagnostic>>)
    requires
        i <= cs@.len(),
        i < cs@.len() ==> !spec_is_whitespace(cs@[i as int]),
    ensures
        parsed_view(r) == parse_at(cs@, i as int),
    decreases cs@.len() - i, 0int,
{
    if i >= cs.len() {
        let r = vec![Diagnostic::UnexpectedEnd];
        assert(r@ =~= seq![Diagnostic::UnexpectedEnd]);
        return Err(r);
    }
    let c = cs[i];
    if c == ')' {
        let r = vec![unbalanced(cs, i)];
        assert(r@ =~= seq![unbalanced_at(cs@, i as int)]);
        return Err(r);
    }
    if c == '(' {
        return parse_array(cs, i);
    }
    assert(skip_ws(cs@, i as int) == i as int);
    let (w, e) = next_word(cs, i);
    match parse_int(cs, i, e) {
        Some(n) => Ok((Value::Int64(n), e)),
        None => Ok((Value::Atom(w), e)),
    }
}

/// Reads the list whose `(` stands at `open`.
#[verifier::loop_isolation(false)]
fn parse_array(cs: &Vec<char>, open: usize) -> (r: Result<(Value, usize), Vec<Diagnostic>>)
    requires
        open < cs@.len(),
        cs@[open as int] == '(',
    ensures
        parsed_view(r) == parse_items(cs@, open as int, open + 1, Seq::empty()),
    decreases cs@.len() - (open + 1), 1int,
{
    let n = cs.len();
    let mut out: Vec<Value> = Vec::new();
    let mut i = open + 1;
    assert(tokens_view(out@) =~= Seq::<Token>::empty());
    loop
        invariant
            open + 1 <= i <= cs@.len(),
            parse_items(cs@, open as int, i as int, tokens_view(out@)) == parse_items(
                cs@,
                open as int,
                open + 1,
                Seq::empty(),
            ),
        decreases cs@.len() - i,
    {
        let j = skip_whitespace(cs, i);
        if j >= cs.len() {
            let r = vec![Diagnostic::UnexpectedEnd, unbalanced(cs, open)];
            assert(r@ =~= seq![Diagnostic::UnexpectedEnd, unbalanced_at(cs@, open as int)]);
            return Err(r);
        }
        if cs[j] == ')' {
            let v = Value::Array(out);
            assert(v@ == Token::List(tokens_view(out@))) by {
                assert(v@->List_0 =~= tokens_view(out@));
            }
            return Ok((v, j + 1));
        }
        proof {
            lemma_skip_ws_bounds(cs@, i as int);
            lemma_parse_advances(cs@, j as int);
        }
        match parse_value(cs, j) {
            Err(mut d) => {
                let ghost d0 = d@;
                d.push(Diagnostic::UnexpectedEnd);
                d.push(unbalanced(cs, open));
                assert(d@ =~= d0 + seq![Diagnostic::UnexpectedEnd, unbalanced_at(cs@, open as int)]);
                return Err(d);
            },
            Ok((v, e)) => {
                let ghost before = out@;
                out.push(v);
                assert(tokens_view(out@) =~= tokens_view(before).push(v@));
                i = e;
            },
        }
    }
}

impl Value {
    /// Reads the one token tree that `text` holds, surrounded by whitespace
    /// at most.
    pub fn from_str(text: &str) -> (r: Result<Value, Vec<Diagnostic>>)
        ensures
            match r {
                Ok(v) => tokenize(text@) == Ok::<Token, Seq<Diagnostic>>(v@),
                Err(d) => tokenize(text@) == Err::<Token, Seq<Diagnostic>>(d@),
            },
    {
        let cs = chars_of(text);
        let start = skip_whitespace(&cs, 0);
        proof {
            lemma_skip_ws_bounds(cs@, 0);
        }
        match parse_value(&cs, start) {
            Err(d) => Err(d),
            Ok((v, e)) => {
                proof {
                    lemma_parse_advances(cs@, start as int);
                }
                let k = skip_whitespace(&cs, e);
                if k < cs.len() {
                    if cs[k] == ')' {
                        let r = vec![unbalanced(&cs, k)];
                        assert(r@ =~= seq![unbalanced_at(cs@, k as int)]);
                        Err(r)
                    } else {
                        let (line, column) = position_of(&cs, k);
                        let r = vec![Diagnostic::TrailingInput { line, column }];
                        assert(r@ =~= seq![Diagnostic::TrailingInput {
                            line: position(cs@, k as int).0 as usize,
                            column: position(cs@, k as int).1 as usize,
                        }]);
                        Err(r)
                    }
                } else {
                    Ok(v)
                }
            },
        }
    }
}

} // verus!
