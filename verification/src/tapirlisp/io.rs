//! The S-expression reader and printer of Tapir Lisp.

use vstd::prelude::*;
use crate::text::{chars_of, push_char, text_between};
use vstd::string::StringExecFns;

pub use super::types::ReadError;
use super::types::{Cons, ReadErr, Sexp};

verus! {

// ---------------------------------------------------------------------------
// Characters

/// The White_Space characters of Unicode, as `char::is_whitespace` knows them.
pub open spec fn is_ws(c: char) -> bool {
    ||| c == ' '
    ||| ('\u{9}' <= c && c <= '\u{d}')
    ||| c == '\u{85}'
    ||| c == '\u{a0}'
    ||| c == '\u{1680}'
    ||| ('\u{2000}' <= c && c <= '\u{200a}')
    ||| c == '\u{2028}'
    ||| c == '\u{2029}'
    ||| c == '\u{202f}'
    ||| c == '\u{205f}'
    ||| c == '\u{3000}'
}

/// A decimal digit.
pub open spec fn is_digit(c: char) -> bool {
    '0' <= c && c <= '9'
}

/// A char that a numeral may hold.
pub open spec fn is_num_char(c: char) -> bool {
    c == '.' || is_digit(c)
}

/// Whether `c` is a White_Space character of Unicode.
pub fn is_whitespace(c: char) -> (b: bool)
    ensures
        b == is_ws(c),
{
    c == ' ' || ('\u{9}' <= c && c <= '\u{d}') || c == '\u{85}' || c == '\u{a0}' || c
        == '\u{1680}' || ('\u{2000}' <= c && c <= '\u{200a}') || c == '\u{2028}' || c
        == '\u{2029}' || c == '\u{202f}' || c == '\u{205f}' || c == '\u{3000}'
}

/// Whether `c` is a decimal digit.
pub fn is_digit_char(c: char) -> (b: bool)
    ensures
        b == is_digit(c),
{
    '0' <= c && c <= '9'
}

// ---------------------------------------------------------------------------
// Numerals

/// A numeral holds at most one dot.
pub open spec fn valid_numeral(t: Seq<char>) -> bool {
    forall|i: int, j: int| 0 <= i < j < t.len() ==> !(t[i] == '.' && t[j] == '.')
}

/// The index of the first dot of `t` at or after `i`, or `t.len()`.
pub open spec fn first_dot(t: Seq<char>, i: int) -> int
    decreases t.len() - i,
{
    if i >= t.len() {
        t.len() as int
    } else if t[i] == '.' {
        i
    } else {
        first_dot(t, i + 1)
    }
}

/// `x` without its leading zeros.
pub open spec fn strip_leading_zeros(x: Seq<char>) -> Seq<char>
    decreases x.len(),
{
    if x.len() > 0 && x[0] == '0' {
        strip_leading_zeros(x.drop_first())
    } else {
        x
    }
}

/// `x` without its trailing zeros.
pub open spec fn strip_trailing_zeros(x: Seq<char>) -> Seq<char>
    decreases x.len(),
{
    if x.len() > 0 && x.last() == '0' {
        strip_trailing_zeros(x.drop_last())
    } else {
        x
    }
}

/// The canonical form of a numeral: the integer part without leading zeros
/// (or `0`), then, where the fraction has a nonzero digit, a dot and the
/// fraction without trailing zeros. `00.250` becomes `0.25` and `3.` becomes
/// `3`: the shortest text of the same number.
pub open spec fn canonical_numeral(t: Seq<char>) -> Seq<char> {
    let d = first_dot(t, 0);
    let int_digits = strip_leading_zeros(t.subrange(0, d));
    let int_text = if int_digits.len() == 0 {
        seq!['0']
    } else {
        int_digits
    };
    let frac = if d < t.len() {
        strip_trailing_zeros(t.subrange(d + 1, t.len() as int))
    } else {
        Seq::empty()
    };
    if frac.len() == 0 {
        int_text
    } else {
        int_text + seq!['.'] + frac
    }
}

/// A numeral that is its own canonical form.
pub open spec fn is_canonical_numeral(n: Seq<char>) -> bool {
    &&& n.len() > 0
    &&& is_digit(n[0])
    &&& forall|k: int| 0 <= k < n.len() ==> is_num_char(#[trigger] n[k])
    &&& valid_numeral(n)
    &&& canonical_numeral(n) == n
}

// ---------------------------------------------------------------------------
// The reader, as a function on text

/// The end of the token that starts at `i`: the first `)` or White_Space
/// char at or after `i`, or the end of `s`.
pub open spec fn symbol_end(s: Seq<char>, i: int) -> int
    decreases s.len() - i,
{
    if 0 <= i < s.len() && s[i] != ')' && !is_ws(s[i]) {
        symbol_end(s, i + 1)
    } else {
        i
    }
}

/// The end of the numeral that starts at `i`: the first char at or after
/// `i` that is neither a digit nor a dot, or the end of `s`.
pub open spec fn number_end(s: Seq<char>, i: int) -> int
    decreases s.len() - i,
{
    if 0 <= i < s.len() && is_num_char(s[i]) {
        number_end(s, i + 1)
    } else {
        i
    }
}

/// What reading from a position gives: an expression and the position after
/// it, an error, or no answer at all (the reader does not return when the
/// text ends inside a list).
pub enum ReadOutcome {
    Done(Sexp, int),
    Failed(ReadErr),
    Unclosed,
}

/// Reads one expression of `s` from position `i`. At the end of the text it
/// gives `Nil`. A token that starts with a digit is a numeral; one that
/// starts with `(` opens a list; any other token is a symbol.
pub open spec fn read_exp(s: Seq<char>, i: int) -> ReadOutcome
    decreases s.len() - i, 0int,
{
    if i < 0 || i >= s.len() {
        ReadOutcome::Done(Sexp::Nil, i)
    } else if is_ws(s[i]) {
        read_exp(s, i + 1)
    } else if s[i] == ')' {
        ReadOutcome::Failed(ReadErr::UnexpectedCloseParen)
    } else if s[i] == '(' {
        read_elems(s, i + 1)
    } else if is_digit(s[i]) {
        let k = number_end(s, i);
        let t = s.subrange(i, k);
        if valid_numeral(t) {
            ReadOutcome::Done(Sexp::Number(canonical_numeral(t)), k)
        } else {
            ReadOutcome::Failed(ReadErr::InvalidNumber(t))
        }
    } else {
        let k = symbol_end(s, i);
        ReadOutcome::Done(Sexp::Symbol(s.subrange(i, k)), k)
    }
}

/// Reads the rest of a list from position `i`, up to and including its `)`.
pub open spec fn read_elems(s: Seq<char>, i: int) -> ReadOutcome
    decreases s.len() - i, 1int,
{
    if i < 0 || i >= s.len() {
        ReadOutcome::Unclosed
    } else if is_ws(s[i]) {
        read_elems(s, i + 1)
    } else if s[i] == ')' {
        ReadOutcome::Done(Sexp::Nil, i + 1)
    } else {
        match read_exp(s, i) {
            ReadOutcome::Done(car, k) => if i < k <= s.len() {
                match read_elems(s, k) {
                    ReadOutcome::Done(cdr, m) => ReadOutcome::Done(
                        Sexp::Cons(Box::new(car), Box::new(cdr)),
                        m,
                    ),
                    other => other,
                }
            } else {
                ReadOutcome::Unclosed
            },
            other => other,
        }
    }
}

/// What reading a whole text gives.
pub enum ReadAll {
    Items(Seq<Sexp>),
    Failed(ReadErr),
    Unclosed,
}

/// Reads the expressions of `s` from position `i` until one reads as `Nil`
/// (the end of the text, or `()`).
pub open spec fn read_all(s: Seq<char>, i: int) -> ReadAll
    decreases s.len() - i,
{
    match read_exp(s, i) {
        ReadOutcome::Done(c, k) => if c == Sexp::Nil {
            ReadAll::Items(Seq::empty())
        } else if i < k <= s.len() {
            match read_all(s, k) {
                ReadAll::Items(rest) => ReadAll::Items(seq![c] + rest),
                other => other,
            }
        } else {
            ReadAll::Unclosed
        },
        ReadOutcome::Failed(e) => ReadAll::Failed(e),
        ReadOutcome::Unclosed => ReadAll::Unclosed,
    }
}

// ---------------------------------------------------------------------------
// The reader

enum Failure {
    Error(ReadError),
    Unclosed,
}

/// The exec result `r` of reading matches the outcome `o`.
spec fn matches_outcome(r: Result<(Cons, usize), Failure>, o: ReadOutcome) -> bool {
    match o {
        ReadOutcome::Done(c, k) => r matches Ok((x, k2)) && x@ == c && k2 == k,
        ReadOutcome::Failed(e) => r matches Err(Failure::Error(e2)) && e2@ == e,
        ReadOutcome::Unclosed => r matches Err(Failure::Unclosed),
    }
}

/// White_Space chars between `i` and `j` change nothing for the reader.
proof fn lemma_skip_ws(s: Seq<char>, i: int, j: int)
    requires
        0 <= i <= j <= s.len(),
        forall|k: int| i <= k < j ==> is_ws(#[trigger] s[k]),
    ensures
        read_exp(s, i) == read_exp(s, j),
        read_elems(s, i) == read_elems(s, j),
    decreases j - i,
{
    if i < j {
        lemma_skip_ws(s, i + 1, j);
    }
}

/// Moves past White_Space from `pos`.
fn skip_whitespaces(chars: &Vec<char>, pos: usize) -> (r: usize)
    requires
        pos <= chars.len(),
    ensures
        pos <= r <= chars.len(),
        forall|k: int| pos <= k < r ==> is_ws(#[trigger] chars@[k]),
        r < chars.len() ==> !is_ws(chars@[r as int]),
{
    let mut p = pos;
    while p < chars.len() && is_whitespace(chars[p])
        invariant
            pos <= p <= chars.len(),
            forall|k: int| pos <= k < p ==> is_ws(#[trigger] chars@[k]),
        decreases chars.len() - p,
    {
        p = p + 1;
    }
    p
}


/// Where `x` starts with exactly `m` zeros, stripping leading zeros leaves
/// the rest.
proof fn lemma_strip_leading(x: Seq<char>, m: int)
    requires
        0 <= m <= x.len(),
        forall|k: int| 0 <= k < m ==> #[trigger] x[k] == '0',
        m == x.len() || x[m] != '0',
    ensures
        strip_leading_zeros(x) == x.subrange(m, x.len() as int),
    decreases m,
{
    if m == 0 {
        assert(x.subrange(0, x.len() as int) =~= x);
    } else {
        let y = x.drop_first();
        assert forall|k: int| 0 <= k < m - 1 implies #[trigger] y[k] == '0' by {
            assert(y[k] == x[k + 1]);
        }
        lemma_strip_leading(y, m - 1);
        assert(y.subrange(m - 1, y.len() as int) =~= x.subrange(m, x.len() as int));
    }
}

/// Where `x` ends with exactly `x.len() - m` zeros, stripping trailing zeros
/// leaves the part before them.
proof fn lemma_strip_trailing(x: Seq<char>, m: int)
    requires
        0 <= m <= x.len(),
        forall|k: int| m <= k < x.len() ==> #[trigger] x[k] == '0',
        m == 0 || x[m - 1] != '0',
    ensures
        strip_trailing_zeros(x) == x.subrange(0, m),
    decreases x.len() - m,
{
    if m == x.len() {
        assert(x.subrange(0, m) =~= x);
    } else {
        let y = x.drop_last();
        lemma_strip_trailing(y, m);
        assert(y.subrange(0, m) =~= x.subrange(0, m));
    }
}

/// The first dot of `t` is at `d` when no char before `d` is a dot.
proof fn lemma_first_dot(t: Seq<char>, i: int, d: int)
    requires
        0 <= i <= d <= t.len(),
        forall|k: int| i <= k < d ==> #[trigger] t[k] != '.',
        d == t.len() || t[d] == '.',
    ensures
        first_dot(t, i) == d,
    decreases d - i,
{
    if i < d {
        lemma_first_dot(t, i + 1, d);
    }
}

/// Reads the numeral that starts at `pos`: its canonical form and the
/// position after it, or `InvalidNumber` with the numeral as written when it
/// holds more than one dot.
fn read_number(chars: &Vec<char>, pos: usize) -> (r: Result<(Cons, usize), ReadError>)
    requires
        pos < chars.len(),
    ensures
        ({
            let k = number_end(chars@, pos as int);
            let t = chars@.subrange(pos as int, k);
            if valid_numeral(t) {
                r matches Ok((c, k2)) && c@ == Sexp::Number(canonical_numeral(t)) && k2 == k
            } else {
                r matches Err(e) && e@ == ReadErr::InvalidNumber(t)
            }
        }),
{
    let ghost s = chars@;
    // the end of the numeral, and its first dot
    let mut k = pos;
    let mut d = chars.len();
    let mut valid = true;
    while k < chars.len() && (chars[k] == '.' || is_digit_char(chars[k]))
        invariant
            pos <= k <= chars.len(),
            d <= chars.len(),
            number_end(s, pos as int) == number_end(s, k as int),
            s == chars@,
            forall|q: int| pos <= q < k ==> is_num_char(#[trigger] s[q]),
            d == chars.len() ==> forall|q: int| pos <= q < k ==> #[trigger] s[q] != '.',
            d < chars.len() ==> pos <= d < k && s[d as int] == '.' && forall|q: int|
                pos <= q < d ==> #[trigger] s[q] != '.',
            valid == valid_numeral(s.subrange(pos as int, k as int)),
        decreases chars.len() - k,
    {
        let ghost old_valid = valid;
        let ghost old_d = d;
        if chars[k] == '.' {
            if d == chars.len() {
                d = k;
            } else {
                valid = false;
            }
        }
        k = k + 1;
        proof {
            let t = s.subrange(pos as int, k as int);
            let t0 = s.subrange(pos as int, k - 1);
            assert forall|i: int| 0 <= i < t0.len() implies #[trigger] t0[i] == t[i] by {}
            assert(t[t.len() - 1] == s[k - 1]);
            if s[k - 1] == '.' && old_d < chars.len() {
                assert(t[old_d - pos] == s[old_d as int]);
                assert(!valid_numeral(t));
            } else if s[k - 1] == '.' {
                assert forall|i: int| 0 <= i < t0.len() implies #[trigger] t0[i] != '.' by {
                    assert(t0[i] == s[pos + i]);
                }
                assert forall|i: int, j: int| 0 <= i < j < t.len() implies !(t[i] == '.' && t[j]
                    == '.') by {
                    assert(t[i] == t0[i]);
                }
            } else {
                if valid_numeral(t0) {
                    assert forall|i: int, j: int| 0 <= i < j < t.len() implies !(t[i] == '.'
                        && t[j] == '.') by {
                        if j < t.len() - 1 {
                            assert(t0[i] == t[i] && t0[j] == t[j]);
                        }
                    }
                } else {
                    let (i, j) = choose|i: int, j: int|
                        0 <= i < j < t0.len() && t0[i] == '.' && t0[j] == '.';
                    assert(t[i] == t0[i] && t[j] == t0[j]);
                }
            }
        }
    }
    let ghost t = s.subrange(pos as int, k as int);
    if !valid {
        return Err(ReadError::InvalidNumber(text_between(chars, pos, k)));
    }
    let dot = if d < k {
        d
    } else {
        k
    };
    proof {
        assert forall|q: int| 0 <= q < dot - pos implies #[trigger] t[q] != '.' by {
            assert(t[q] == s[pos + q]);
            if d == chars.len() {
                assert(pos <= pos + q < k);
            } else {
                assert(pos <= pos + q < d);
            }
        }
        lemma_first_dot(t, 0, dot - pos);
    }
    // integer part without leading zeros
    let mut a = pos;
    while a < dot && chars[a] == '0'
        invariant
            pos <= a <= dot <= k <= chars.len(),
            s == chars@,
            forall|q: int| pos <= q < a ==> #[trigger] s[q] == '0',
        decreases dot - a,
    {
        a = a + 1;
    }
    proof {
        let x = t.subrange(0, dot - pos);
        assert forall|q: int| 0 <= q < a - pos implies #[trigger] x[q] == '0' by {
            assert(x[q] == s[pos + q]);
        }
        lemma_strip_leading(x, a - pos);
        assert(x.subrange(a - pos, x.len() as int) =~= s.subrange(a as int, dot as int));
    }
    let mut out = if a == dot {
        let mut z = String::new();
        push_char(&mut z, '0');
        z
    } else {
        text_between(chars, a, dot)
    };
    if dot < k {
        // fraction without trailing zeros
        let mut e = k;
        while e > dot + 1 && chars[e - 1] == '0'
            invariant
                pos <= dot < e <= k <= chars.len(),
                s == chars@,
                forall|q: int| e <= q < k ==> #[trigger] s[q] == '0',
            decreases e,
        {
            e = e - 1;
        }
        proof {
            let y = t.subrange(dot - pos + 1, t.len() as int);
            assert forall|q: int| e - dot - 1 <= q < y.len() implies #[trigger] y[q] == '0' by {
                assert(y[q] == s[dot + 1 + q]);
            }
            lemma_strip_trailing(y, e - dot - 1);
            assert(y.subrange(0, e - dot - 1) =~= s.subrange(dot + 1, e as int));
        }
        if e > dot + 1 {
            let ghost before = out@;
            push_char(&mut out, '.');
            let frac = text_between(chars, dot + 1, e);
            out.append(frac.as_str());
            assert(out@ =~= before + seq!['.'] + s.subrange(dot + 1, e as int));
        }
    }
    Ok((Cons::Number(out), k))
}


/// Reads the symbol that starts at `pos`: every char up to the next `)` or
/// White_Space char.
fn read_symbol(chars: &Vec<char>, pos: usize) -> (r: (Cons, usize))
    requires
        pos <= chars.len(),
    ensures
        r.1 == symbol_end(chars@, pos as int),
        r.0@ == Sexp::Symbol(chars@.subrange(pos as int, r.1 as int)),
{
    let mut name = String::new();
    let mut p = pos;
    while p < chars.len() && chars[p] != ')' && !is_whitespace(chars[p])
        invariant
            pos <= p <= chars.len(),
            symbol_end(chars@, pos as int) == symbol_end(chars@, p as int),
            name@ == chars@.subrange(pos as int, p as int),
        decreases chars.len() - p,
    {
        push_char(&mut name, chars[p]);
        p = p + 1;
        assert(name@ =~= chars@.subrange(pos as int, p as int));
    }
    (Cons::Symbol(name), p)
}

/// Reads one expression from `pos`.
fn read_exp_at(chars: &Vec<char>, pos: usize) -> (r: Result<(Cons, usize), Failure>)
    requires
        pos <= chars.len(),
    ensures
        matches_outcome(r, read_exp(chars@, pos as int)),
        r matches Ok((_, k)) ==> k <= chars.len(),
    decreases chars.len() - pos, 0int,
{
    let p = skip_whitespaces(chars, pos);
    proof {
        lemma_skip_ws(chars@, pos as int, p as int);
    }
    if p >= chars.len() {
        return Ok((Cons::Nil, p));
    }
    let c = chars[p];
    if c == ')' {
        Err(Failure::Error(ReadError::UnexpectedCloseParen))
    } else if c == '(' {
        read_elems_at(chars, p + 1)
    } else if is_digit_char(c) {
        proof {
            lemma_number_end_bound(chars@, p as int);
        }
        match read_number(chars, p) {
            Ok(r) => Ok(r),
            Err(e) => Err(Failure::Error(e)),
        }
    } else {
        proof {
            lemma_symbol_end_bound(chars@, p as int);
        }
        let (sym, k) = read_symbol(chars, p);
        Ok((sym, k))
    }
}

/// Reads the rest of a list from `pos`.
fn read_elems_at(chars: &Vec<char>, pos: usize) -> (r: Result<(Cons, usize), Failure>)
    requires
        pos <= chars.len(),
    ensures
        matches_outcome(r, read_elems(chars@, pos as int)),
        r matches Ok((_, k)) ==> k <= chars.len(),
    decreases chars.len() - pos, 1int,
{
    let p = skip_whitespaces(chars, pos);
    proof {
        lemma_skip_ws(chars@, pos as int, p as int);
    }
    if p >= chars.len() {
        return Err(Failure::Unclosed);
    }
    if chars[p] == ')' {
        return Ok((Cons::Nil, p + 1));
    }
    match read_exp_at(chars, p) {
        Ok((car, k)) => {
            if p < k && k <= chars.len() {
                match read_elems_at(chars, k) {
                    Ok((cdr, m)) => Ok((Cons::Cons(Box::new(car), Box::new(cdr)), m)),
                    Err(f) => Err(f),
                }
            } else {
                Err(Failure::Unclosed)
            }
        },
        Err(f) => Err(f),
    }
}

proof fn lemma_symbol_end_bound(s: Seq<char>, i: int)
    requires
        0 <= i <= s.len(),
    ensures
        i <= symbol_end(s, i) <= s.len(),
    decreases s.len() - i,
{
    if i < s.len() && s[i] != ')' && !is_ws(s[i]) {
        lemma_symbol_end_bound(s, i + 1);
    }
}

proof fn lemma_number_end_bound(s: Seq<char>, i: int)
    requires
        0 <= i <= s.len(),
    ensures
        i <= number_end(s, i) <= s.len(),
    decreases s.len() - i,
{
    if i < s.len() && is_num_char(s[i]) {
        lemma_number_end_bound(s, i + 1);
    }
}

/// The mathematical forms of the boxed expressions of `v`.
pub open spec fn sexps(v: Seq<Box<Cons>>) -> Seq<Sexp> {
    v.map_values(|b: Box<Cons>| (*b)@)
}

/// `items` followed by what `r` reads.
spec fn prepend_items(items: Seq<Sexp>, r: ReadAll) -> ReadAll {
    match r {
        ReadAll::Items(rest) => ReadAll::Items(items + rest),
        other => other,
    }
}

/// Reads every expression of `chars`.
fn read_all_at(chars: &Vec<char>) -> (r: Result<Vec<Box<Cons>>, Failure>)
    ensures
        match read_all(chars@, 0) {
            ReadAll::Items(items) => r matches Ok(v) && sexps(v@) == items,
            ReadAll::Failed(e) => r matches Err(Failure::Error(e2)) && e2@ == e,
            ReadAll::Unclosed => r matches Err(Failure::Unclosed),
        },
{
    let ghost s = chars@;
    let mut v: Vec<Box<Cons>> = Vec::new();
    let mut pos: usize = 0;
    assert(sexps(v@) + Seq::<Sexp>::empty() =~= Seq::<Sexp>::empty());
    loop
        invariant
            pos <= chars.len(),
            s == chars@,
            read_all(s, 0) == prepend_items(sexps(v@), read_all(s, pos as int)),
        decreases chars.len() - pos,
    {
        match read_exp_at(chars, pos) {
            Ok((c, k)) => {
                if let Cons::Nil = c {
                    assert(sexps(v@) + Seq::<Sexp>::empty() =~= sexps(v@));
                    return Ok(v);
                }
                if pos < k && k <= chars.len() {
                    let ghost before = sexps(v@);
                    let ghost cv = c@;
                    v.push(Box::new(c));
                    assert(sexps(v@) =~= before.push(cv));
                    proof {
                        match read_all(s, k as int) {
                            ReadAll::Items(rest) => {
                                assert(before + (seq![cv] + rest) =~= sexps(v@) + rest);
                            },
                            _ => {},
                        }
                    }
                    pos = k;
                } else {
                    return Err(Failure::Unclosed);
                }
            },
            Err(f) => {
                return Err(f);
            },
        }
    }
}

/// Reads the text `s` into its expressions, up to the end of the text or the
/// first expression that reads as `Nil` (such as `()`). A token that starts
/// with a digit is a numeral, kept in canonical form; one that starts with
/// `(` opens a list; `)` where an expression should start is an error.
pub fn read(s: String) -> (r: Result<Vec<Box<Cons>>, ReadError>)
    requires
        !(read_all(s@, 0) is Unclosed),
    ensures
        match read_all(s@, 0) {
            ReadAll::Items(items) => r matches Ok(v) && sexps(v@) == items,
            ReadAll::Failed(e) => r matches Err(e2) && e2@ == e,
            ReadAll::Unclosed => false,
        },
{
    let chars = chars_of(s.as_str());
    match read_all_at(&chars) {
        Ok(v) => Ok(v),
        Err(Failure::Error(e)) => Err(e),
        Err(Failure::Unclosed) => {
            proof {
                assert(false);
            }
            Ok(Vec::new())
        },
    }
}

/// Whether reading `s` comes to an end: `false` where the text ends inside a
/// list that `read` would be reading.
pub fn read_terminates(s: &String) -> (b: bool)
    ensures
        b == !(read_all(s@, 0) is Unclosed),
{
    let chars = chars_of(s.as_str());
    match read_all_at(&chars) {
        Err(Failure::Unclosed) => false,
        _ => true,
    }
}


// ---------------------------------------------------------------------------
// The printer

/// The text of an expression: `nil`, a numeral, a symbol, or a list in
/// parentheses with its elements apart by a space; a list that does not end
/// in `Nil` shows its last `cdr` after ` . `.
pub open spec fn print_sexp(c: Sexp) -> Seq<char>
    decreases super::types::sexp_size(c), 0int,
{
    match c {
        Sexp::Nil => seq!['n', 'i', 'l'],
        Sexp::Number(n) => n,
        Sexp::Symbol(n) => n,
        Sexp::Cons(car, cdr) => seq!['('] + print_elems(*car, *cdr) + seq![')'],
    }
}

/// The text of the elements of a list whose first `car` and `cdr` are given.
pub open spec fn print_elems(car: Sexp, cdr: Sexp) -> Seq<char>
    decreases super::types::sexp_size(car) + super::types::sexp_size(cdr), 1int,
{
    print_sexp(car) + match cdr {
        Sexp::Cons(car2, cdr2) => seq![' '] + print_elems(*car2, *cdr2),
        Sexp::Nil => Seq::empty(),
        Sexp::Number(n) => seq![' ', '.', ' '] + n,
        Sexp::Symbol(n) => seq![' ', '.', ' '] + n,
    }
}

proof fn lemma_size_positive(c: Sexp)
    ensures
        super::types::sexp_size(c) >= 1,
{
}

/// Appends the text of `exp` to `out`.
fn print_into(exp: &Cons, out: &mut String)
    ensures
        final(out)@ == old(out)@ + print_sexp(exp@),
    decreases super::types::sexp_size(exp@), 0int,
{
    match exp {
        Cons::Nil => {
            let ghost before = out@;
            push_char(out, 'n');
            push_char(out, 'i');
            push_char(out, 'l');
            assert(out@ =~= before + seq!['n', 'i', 'l']);
        },
        Cons::Number(n) => out.append(n.as_str()),
        Cons::Symbol(n) => out.append(n.as_str()),
        Cons::Cons(car, cdr) => {
            let ghost before = out@;
            push_char(out, '(');
            print_elems_into(car, cdr, out);
            push_char(out, ')');
            assert(out@ =~= before + (seq!['('] + print_elems((**car)@, (**cdr)@) + seq![')']));
        },
    }
}

/// Appends the text of the elements of the list `(car . cdr)` to `out`.
fn print_elems_into(car: &Cons, cdr: &Cons, out: &mut String)
    ensures
        final(out)@ == old(out)@ + print_elems(car@, cdr@),
    decreases super::types::sexp_size(car@) + super::types::sexp_size(cdr@), 1int,
{
    proof {
        lemma_size_positive(cdr@);
    }
    let ghost before = out@;
    print_into(car, out);
    let ghost mid = out@;
    match cdr {
        Cons::Cons(car2, cdr2) => {
            push_char(out, ' ');
            print_elems_into(car2, cdr2, out);
            assert(out@ =~= before + (print_sexp(car@) + (seq![' '] + print_elems(
                (**car2)@,
                (**cdr2)@,
            ))));
        },
        Cons::Nil => {
            assert(out@ =~= before + (print_sexp(car@) + Seq::<char>::empty()));
        },
        Cons::Number(n) => {
            push_char(out, ' ');
            push_char(out, '.');
            push_char(out, ' ');
            out.append(n.as_str());
            assert(out@ =~= before + (print_sexp(car@) + (seq![' ', '.', ' '] + n@)));
        },
        Cons::Symbol(n) => {
            push_char(out, ' ');
            push_char(out, '.');
            push_char(out, ' ');
            out.append(n.as_str());
            assert(out@ =~= before + (print_sexp(car@) + (seq![' ', '.', ' '] + n@)));
        },
    }
}

/// The text of the elements of the list `(car . cdr)`.
pub fn print_list(car: &Cons, cdr: &Cons) -> (s: String)
    ensures
        s@ == print_elems(car@, cdr@),
{
    let mut s = String::new();
    print_elems_into(car, cdr, &mut s);
    assert(s@ =~= print_elems(car@, cdr@));
    s
}

/// The text of an expression.
pub fn print(exp: &Cons) -> (s: String)
    ensures
        s@ == print_sexp(exp@),
{
    let mut s = String::new();
    print_into(exp, &mut s);
    assert(s@ =~= print_sexp(exp@));
    s
}


// ---------------------------------------------------------------------------
// Reading back what was printed

/// A symbol that reads back as itself: not empty, not starting with a digit
/// or `(`, without `)` and without White_Space.
pub open spec fn is_symbol_text(n: Seq<char>) -> bool {
    &&& n.len() > 0
    &&& !is_digit(n[0])
    &&& n[0] != '('
    &&& forall|k: int| 0 <= k < n.len() ==> !is_ws(#[trigger] n[k]) && n[k] != ')'
}

/// An expression whose text reads back as itself: not `Nil` (which prints as
/// the symbol `nil`), with symbols and numerals that read back as themselves,
/// and with lists that are proper and hold no `Nil`.
pub open spec fn printable(c: Sexp) -> bool
    decreases super::types::sexp_size(c), 0int,
{
    match c {
        Sexp::Nil => false,
        Sexp::Number(n) => is_canonical_numeral(n),
        Sexp::Symbol(n) => is_symbol_text(n),
        Sexp::Cons(car, cdr) => printable(*car) && printable_tail(*cdr),
    }
}

/// The rest of a proper list whose elements are all printable.
pub open spec fn printable_tail(c: Sexp) -> bool
    decreases super::types::sexp_size(c), 1int,
{
    match c {
        Sexp::Nil => true,
        Sexp::Cons(car, cdr) => printable(*car) && printable_tail(*cdr),
        _ => false,
    }
}

/// Position `j` of `s` ends a token: it is the end of `s`, White_Space or `)`.
pub open spec fn at_delimiter(s: Seq<char>, j: int) -> bool {
    j == s.len() || (0 <= j < s.len() && (is_ws(s[j]) || s[j] == ')'))
}

proof fn lemma_symbol_end_at(s: Seq<char>, j: int, e: int)
    requires
        0 <= j <= e <= s.len(),
        forall|q: int| j <= q < e ==> #[trigger] s[q] != ')' && !is_ws(s[q]),
        at_delimiter(s, e),
    ensures
        symbol_end(s, j) == e,
    decreases e - j,
{
    if j < e {
        lemma_symbol_end_at(s, j + 1, e);
    }
}

proof fn lemma_number_end_at(s: Seq<char>, j: int, e: int)
    requires
        0 <= j <= e <= s.len(),
        forall|q: int| j <= q < e ==> is_num_char(#[trigger] s[q]),
        at_delimiter(s, e),
    ensures
        number_end(s, j) == e,
    decreases e - j,
{
    if j < e {
        lemma_number_end_at(s, j + 1, e);
    }
}

/// The text of a printable expression starts with a char that is neither
/// White_Space nor `)`.
proof fn lemma_printed_start(c: Sexp)
    requires
        printable(c),
    ensures
        print_sexp(c).len() > 0,
        !is_ws(print_sexp(c)[0]),
        print_sexp(c)[0] != ')',
{
    match c {
        Sexp::Number(n) => {},
        Sexp::Symbol(n) => {},
        Sexp::Cons(car, cdr) => {},
        Sexp::Nil => {},
    }
}

/// Reading at the start of the text of a printable expression, followed by
/// the end of a token, gives the expression back.
proof fn lemma_read_printed(s: Seq<char>, i: int, c: Sexp)
    requires
        printable(c),
        0 <= i,
        i + print_sexp(c).len() <= s.len(),
        s.subrange(i, i + print_sexp(c).len()) == print_sexp(c),
        at_delimiter(s, i + print_sexp(c).len()),
    ensures
        read_exp(s, i) == ReadOutcome::Done(c, i + print_sexp(c).len()),
    decreases super::types::sexp_size(c), 0int,
{
    let p = print_sexp(c);
    let e = i + p.len();
    assert forall|q: int| i <= q < e implies #[trigger] s[q] == p[q - i] by {
        assert(s.subrange(i, e)[q - i] == s[q]);
    }
    match c {
        Sexp::Symbol(n) => {
            assert(s[i] == n[0]);
            assert forall|q: int| i <= q < e implies #[trigger] s[q] != ')' && !is_ws(s[q]) by {
                assert(s[q] == n[q - i]);
            }
            lemma_symbol_end_at(s, i, e);
        },
        Sexp::Number(n) => {
            assert(s[i] == n[0]);
            assert forall|q: int| i <= q < e implies is_num_char(#[trigger] s[q]) by {
                assert(s[q] == n[q - i]);
            }
            lemma_number_end_at(s, i, e);
        },
        Sexp::Cons(car, cdr) => {
            let q = print_elems(*car, *cdr);
            assert(p == seq!['('] + q + seq![')']);
            assert(s[i] == '(');
            assert(s.subrange(i + 1, i + 1 + q.len()) =~= q) by {
                assert forall|k: int| 0 <= k < q.len() implies #[trigger] s.subrange(
                    i + 1,
                    i + 1 + q.len(),
                )[k] == q[k] by {
                    assert(s[i + 1 + k] == p[1 + k]);
                }
            }
            assert(s[i + 1 + q.len()] == p[1 + q.len() as int]);
            lemma_read_printed_elems(s, i + 1, *car, *cdr);
        },
        Sexp::Nil => {},
    }
}

/// Reading the elements of a list at the start of their text, followed by
/// `)`, gives the list back.
proof fn lemma_read_printed_elems(s: Seq<char>, i: int, car: Sexp, cdr: Sexp)
    requires
        printable(car),
        printable_tail(cdr),
        0 <= i,
        i + print_elems(car, cdr).len() < s.len(),
        s.subrange(i, i + print_elems(car, cdr).len()) == print_elems(car, cdr),
        s[i + print_elems(car, cdr).len()] == ')',
    ensures
        read_elems(s, i) == ReadOutcome::Done(
            Sexp::Cons(Box::new(car), Box::new(cdr)),
            i + print_elems(car, cdr).len() + 1,
        ),
    decreases super::types::sexp_size(car) + super::types::sexp_size(cdr), 1int,
{
    let q = print_elems(car, cdr);
    let p = print_sexp(car);
    let k = i + p.len();
    lemma_size_positive(cdr);
    lemma_printed_start(car);
    assert forall|j: int| i <= j < i + q.len() implies #[trigger] s[j] == q[j - i] by {
        assert(s.subrange(i, i + q.len())[j - i] == s[j]);
    }
    assert(s[i] == p[0]);
    assert(s.subrange(i, k) =~= p) by {
        assert forall|j: int| 0 <= j < p.len() implies #[trigger] s.subrange(i, k)[j] == p[j] by {
            assert(s[i + j] == q[j]);
        }
    }
    match cdr {
        Sexp::Nil => {
            assert(q =~= p);
            lemma_read_printed(s, i, car);
            assert(!is_ws(s[k]));
            assert(read_elems(s, k) == ReadOutcome::Done(Sexp::Nil, k + 1));
        },
        Sexp::Cons(car2, cdr2) => {
            let q2 = print_elems(*car2, *cdr2);
            assert(q == p + (seq![' '] + q2));
            assert(s[k] == q[p.len() as int]);
            lemma_read_printed(s, i, car);
            assert(s.subrange(k + 1, k + 1 + q2.len()) =~= q2) by {
                assert forall|j: int| 0 <= j < q2.len() implies #[trigger] s.subrange(
                    k + 1,
                    k + 1 + q2.len(),
                )[j] == q2[j] by {
                    assert(s[k + 1 + j] == q[p.len() + 1 + j]);
                }
            }
            lemma_read_printed_elems(s, k + 1, *car2, *cdr2);
        },
        _ => {},
    }
}

/// Reading the text of a printable expression gives that expression and
/// nothing more: what the printer writes, the reader reads back.
pub proof fn lemma_read_print_roundtrip(c: Sexp)
    requires
        printable(c),
    ensures
        read_all(print_sexp(c), 0) == ReadAll::Items(seq![c]),
{
    let s = print_sexp(c);
    lemma_printed_start(c);
    assert(s.subrange(0, s.len() as int) =~= s);
    lemma_read_printed(s, 0, c);
    assert(read_exp(s, s.len() as int) == ReadOutcome::Done(Sexp::Nil, s.len() as int));
    assert(read_all(s, s.len() as int) == ReadAll::Items(Seq::<Sexp>::empty()));
    assert(seq![c] + Seq::<Sexp>::empty() =~= seq![c]);
}

} // verus!
