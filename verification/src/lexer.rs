//! The lexer: consumes the source buffer character by character with bounded
//! lookahead and produces an ordered token sequence, one Newline per logical
//! line, with Indent/Dedent tokens interleaved at indentation transitions.
//!
//! The scanning helpers are written over the character buffer and a cursor
//! position; each consumes the characters of one token and returns the token
//! together with the position that follows it.

use vstd::prelude::*;
use crate::chars::{
    char_alphabetic, char_alphanumeric, char_from_u32, digit10, digit8, digit_val, hex_digit,
    hex_val,
    is_alphabetic_char, is_alphanumeric_char, is_digit, is_octal_digit, push_utf8, utf8_seq,
};
use crate::lexeme::{Delimiter, Keyword, Lexeme, LexemeView, Operator, Prefix};

verus! {

/// The position after a sub-scan, forced past `p` so that recursive spec
/// scans visibly terminate. A successful sub-scan always advances, so on
/// real runs the force never fires.
pub open spec fn bump(p: int, q: int) -> int {
    if q > p {
        q
    } else {
        p + 1
    }
}

/// `bump`, additionally clamped to `n` so the measure stays within the
/// scanned sequence; on real runs sub-scans end inside it and the clamp
/// never fires.
pub open spec fn bump_within(p: int, q: int, n: int) -> int {
    let b = bump(p, q);
    if b > n {
        n
    } else {
        b
    }
}

/// A character that ends a physical line.
pub open spec fn is_line_term(c: char) -> bool {
    c == '\n' || c == '\r' || c == '\u{0C}'
}

pub fn line_term(c: char) -> (r: bool)
    ensures
        r == is_line_term(c),
{
    c == '\n' || c == '\r' || c == '\u{0C}'
}

/// A character that can continue a word: alphanumeric or an underscore.
pub open spec fn is_word_char(c: char) -> bool {
    char_alphanumeric(c) || c == '_'
}

/// The number of Indent tokens in a token sequence.
pub open spec fn indent_count(s: Seq<Lexeme>) -> int
    decreases s.len(),
{
    if s.len() == 0 {
        0
    } else {
        indent_count(s.drop_last()) + (if s.last() is Indent {
            1int
        } else {
            0int
        })
    }
}

/// The number of Dedent tokens in a token sequence.
pub open spec fn dedent_count(s: Seq<Lexeme>) -> int
    decreases s.len(),
{
    if s.len() == 0 {
        0
    } else {
        dedent_count(s.drop_last()) + (if s.last() is Dedent {
            1int
        } else {
            0int
        })
    }
}

/// The number of Newline tokens in a token sequence.
pub open spec fn newline_count(s: Seq<Lexeme>) -> int
    decreases s.len(),
{
    if s.len() == 0 {
        0
    } else {
        newline_count(s.drop_last()) + (if s.last() is Newline {
            1int
        } else {
            0int
        })
    }
}

proof fn lemma_counts_push(s: Seq<Lexeme>, t: Lexeme)
    ensures
        indent_count(s.push(t)) == indent_count(s) + (if t is Indent {
            1int
        } else {
            0int
        }),
        dedent_count(s.push(t)) == dedent_count(s) + (if t is Dedent {
            1int
        } else {
            0int
        }),
        newline_count(s.push(t)) == newline_count(s) + (if t is Newline {
            1int
        } else {
            0int
        }),
{
    assert(s.push(t).drop_last() =~= s);
    assert(s.push(t).last() == t);
}

/// The longest operator spelling of one to three characters starting at
/// position `i`, together with its length: a three-character spelling beats
/// a two-character one, which beats a single character.
pub open spec fn operator_scan(s: Seq<char>, i: int) -> Option<(Operator, int)> {
    let l3 = if i + 3 <= s.len() {
        Operator::of_char3(s[i], s[i + 1], s[i + 2])
    } else {
        None
    };
    let l2 = if i + 2 <= s.len() {
        Operator::of_char2(s[i], s[i + 1])
    } else {
        None
    };
    let l1 = if i + 1 <= s.len() {
        Operator::of_char1(s[i])
    } else {
        None
    };
    match l3 {
        Some(op) => Some((op, 3int)),
        None => match l2 {
            Some(op) => Some((op, 2int)),
            None => match l1 {
                Some(op) => Some((op, 1int)),
                None => None,
            },
        },
    }
}

/// After matching a lone `+`, `-` or `~`, the operator is reclassified as
/// its unary variant when the character immediately following it is
/// alphanumeric.
pub open spec fn reclassify(op: Operator, s: Seq<char>, after: int) -> Operator {
    if (op == Operator::Add || op == Operator::Sub || op == Operator::Not) && after < s.len()
        && char_alphanumeric(s[after]) {
        if op == Operator::Add {
            Operator::UnaryAdd
        } else if op == Operator::Sub {
            Operator::UnarySub
        } else {
            Operator::UnaryNot
        }
    } else {
        op
    }
}

/// Scans the operator starting at `start`: the longest known spelling of one
/// to three characters wins, and a lone plus, minus or tilde directly
/// followed by an alphanumeric character becomes its unary variant.
fn lex_operator(chars: &Vec<char>, start: usize) -> (r: (Result<Lexeme, LexerError>, usize))
    requires
        start < chars@.len(),
    ensures
        start <= r.1 <= chars@.len(),
        (match operator_scan(chars@, start as int) {
            Some((op, len)) => r.1 == start + len && r.0 == Ok::<Lexeme, LexerError>(
                Lexeme::Operator(reclassify(op, chars@, start + len)),
            ),
            None => r.0 == Err::<Lexeme, LexerError>(LexerError::InvalidOperator(start)) && r.1
                == start,
        }),
{
    let n = chars.len();
    let c0 = chars[start];
    let mut op: Option<Operator> = None;
    let mut len: usize = 0;
    if n - start > 2 && Operator::is_operator_term(chars[start + 1]) && Operator::is_operator_term(
        chars[start + 2],
    ) {
        let word = vec![c0, chars[start + 1], chars[start + 2]];
        proof {
            assert(word@ =~= seq![
                chars@[start as int],
                chars@[start + 1],
                chars@[start + 2],
            ]);
        }
        op = Operator::is_operator(word.as_slice());
        len = 3;
    }
    if op.is_none() && n - start > 1 && Operator::is_operator_term(chars[start + 1]) {
        let word = vec![c0, chars[start + 1]];
        proof {
            assert(word@ =~= seq![chars@[start as int], chars@[start + 1]]);
        }
        op = Operator::is_operator(word.as_slice());
        len = 2;
    }
    if op.is_none() {
        let word = vec![c0];
        proof {
            assert(word@ =~= seq![chars@[start as int]]);
        }
        op = Operator::is_operator(word.as_slice());
        len = 1;
    }
    match op {
        None => (Err(LexerError::InvalidOperator(start)), start),
        Some(base) => {
            let after = start + len;
            let reclassed = if (matches!(base, Operator::Add) || matches!(base, Operator::Sub)
                || matches!(base, Operator::Not)) && after < n && is_alphanumeric_char(
                chars[after],
            ) {
                if matches!(base, Operator::Add) {
                    Operator::UnaryAdd
                } else if matches!(base, Operator::Sub) {
                    Operator::UnarySub
                } else {
                    Operator::UnaryNot
                }
            } else {
                base
            };
            (Ok(Lexeme::Operator(reclassed)), after)
        },
    }
}

/// Scans one bracket character: an opening delimiter is pushed on the
/// line-local delimiter stack; a closing delimiter must match the most
/// recently opened bracket, and pops it.
fn lex_delimiter(start: usize, delimiter: Delimiter, delimit_stack: &mut Vec<Delimiter>) -> (r:
    Result<Lexeme, LexerError>)
    ensures
        delimiter.opening_spec() ==> final(delimit_stack)@ == old(delimit_stack)@.push(delimiter)
            && r == Ok::<Lexeme, LexerError>(Lexeme::Delimiter(start, delimiter)),
        !delimiter.opening_spec() ==> (if old(delimit_stack)@.len() > 0 && old(
            delimit_stack,
        )@.last().partner() == delimiter {
            final(delimit_stack)@ == old(delimit_stack)@.drop_last() && r == Ok::<
                Lexeme,
                LexerError,
            >(Lexeme::Delimiter(start, delimiter))
        } else {
            final(delimit_stack)@ == old(delimit_stack)@ && r == Err::<Lexeme, LexerError>(
                LexerError::MismatchedDelimiter(start),
            )
        }),
{
    if delimiter.is_opening() {
        delimit_stack.push(delimiter);
        Ok(Lexeme::Delimiter(start, delimiter))
    } else {
        let matched = match delimit_stack.last() {
            Some(opening) => opening.is_matching(delimiter),
            None => false,
        };
        if matched {
            let _ = delimit_stack.pop();
            Ok(Lexeme::Delimiter(start, delimiter))
        } else {
            Err(LexerError::MismatchedDelimiter(start))
        }
    }
}

/// A character that can continue a numeric literal run.
pub open spec fn is_num_cont(c: char) -> bool {
    is_digit(c) || c == '_' || c == '.' || c == 'e' || c == '+' || c == '-'
}

fn num_cont(c: char) -> (r: bool)
    ensures
        r == is_num_cont(c),
{
    digit10(c) || c == '_' || c == '.' || c == 'e' || c == '+' || c == '-'
}

/// The characters of a literal with the visual separator `_` removed.
pub open spec fn strip_seps(s: Seq<char>) -> Seq<char>
    decreases s.len(),
{
    if s.len() == 0 {
        Seq::empty()
    } else if s.last() == '_' {
        strip_seps(s.drop_last())
    } else {
        strip_seps(s.drop_last()).push(s.last())
    }
}

pub open spec fn all_digits(s: Seq<char>) -> bool {
    forall|i: int| 0 <= i < s.len() ==> is_digit(s[i])
}

/// Whether `c` is a digit of the given base, taking letters as hexadecimal
/// digits.
pub open spec fn is_base_digit(c: char, b: int) -> bool {
    match hex_val(c) {
        Some(v) => v < b,
        None => false,
    }
}

/// The value of one digit, taking letters as hexadecimal digits.
pub open spec fn hexv(c: char) -> int {
    match hex_val(c) {
        Some(v) => v as int,
        None => 0,
    }
}

/// The value of a run of digits read in the given base.
pub open spec fn base_val(s: Seq<char>, b: int) -> int
    decreases s.len(),
{
    if s.len() == 0 {
        0
    } else {
        base_val(s.drop_last(), b) * b + hexv(s.last())
    }
}

proof fn lemma_base_val_nonneg(s: Seq<char>, b: int)
    requires
        b >= 2,
    ensures
        base_val(s, b) >= 0,
    decreases s.len(),
{
    if s.len() > 0 {
        lemma_base_val_nonneg(s.drop_last(), b);
        assert(base_val(s.drop_last(), b) * b >= 0) by (nonlinear_arith)
            requires
                base_val(s.drop_last(), b) >= 0,
                b >= 2,
        ;
    }
}

/// A prefix of a digit run never exceeds the value of the whole run.
proof fn lemma_base_val_prefix_le(s: Seq<char>, i: int, b: int)
    requires
        0 <= i <= s.len(),
        b >= 2,
    ensures
        base_val(s.subrange(0, i), b) <= base_val(s, b),
    decreases s.len() - i,
{
    if i < s.len() {
        let p = s.subrange(0, i);
        let q = s.subrange(0, i + 1);
        assert(q.drop_last() =~= p);
        lemma_base_val_nonneg(p, b);
        assert(base_val(p, b) * b >= base_val(p, b)) by (nonlinear_arith)
            requires
                base_val(p, b) >= 0,
                b >= 2,
        ;
        assert(base_val(q, b) >= base_val(p, b));
        lemma_base_val_prefix_le(s, i + 1, b);
    } else {
        assert(s.subrange(0, i) =~= s);
    }
}

/// Folds one more digit into an accumulated value, refusing any value
/// beyond the 64-bit signed range.
fn fold_digit(acc: u64, b: u64, d: u64) -> (r: Option<u64>)
    requires
        2 <= b <= 16,
        d < b,
        acc <= 0x7FFF_FFFF_FFFF_FFFF,
    ensures
        r matches Some(v) ==> v == acc * b + d && acc * b + d <= 0x7FFF_FFFF_FFFF_FFFF,
        r is None ==> acc * b + d > 0x7FFF_FFFF_FFFF_FFFF,
{
    let max: u64 = 0x7FFF_FFFF_FFFF_FFFF;
    if acc > (max - d) / b {
        proof {
            assert(acc * b + d > max) by (nonlinear_arith)
                requires
                    acc > (max - d) / (b as int),
                    2 <= b <= 16,
                    d < b,
                    max == 0x7FFF_FFFF_FFFF_FFFFu64,
            ;
        }
        None
    } else {
        proof {
            assert(acc * b + d <= max) by (nonlinear_arith)
                requires
                    acc <= (max - d) / (b as int),
                    2 <= b <= 16,
                    d < b,
                    max == 0x7FFF_FFFF_FFFF_FFFFu64,
            ;
        }
        Some(acc * b + d)
    }
}

/// The 64-bit value of a run of digits in the given base, or `None` when
/// the value exceeds the signed 64-bit range.
fn fold_value(lit: &Vec<char>, b: u64) -> (r: Option<u64>)
    requires
        2 <= b <= 16,
        forall|i: int| 0 <= i < lit@.len() ==> is_base_digit(lit@[i], b as int),
    ensures
        r matches Some(v) ==> v == base_val(lit@, b as int) && base_val(lit@, b as int)
            <= 0x7FFF_FFFF_FFFF_FFFF,
        r is None ==> base_val(lit@, b as int) > 0x7FFF_FFFF_FFFF_FFFF,
{
    let n = lit.len();
    let mut acc: u64 = 0;
    let mut i: usize = 0;
    while i < n
        invariant
            0 <= i <= n,
            n == lit@.len(),
            2 <= b <= 16,
            forall|k: int| 0 <= k < lit@.len() ==> is_base_digit(lit@[k], b as int),
            acc == base_val(lit@.subrange(0, i as int), b as int),
            acc <= 0x7FFF_FFFF_FFFF_FFFF,
        decreases n - i,
    {
        let d: u64 = match hex_digit(lit[i]) {
            Some(v) => v as u64,
            None => {
                proof {
                    assert(false);
                }
                0
            },
        };
        proof {
            assert(lit@.subrange(0, i + 1).drop_last() =~= lit@.subrange(0, i as int));
        }
        match fold_digit(acc, b, d) {
            Some(v) => {
                acc = v;
            },
            None => {
                proof {
                    lemma_base_val_prefix_le(lit@, i + 1, b as int);
                }
                return None;
            },
        }
        i += 1;
    }
    proof {
        assert(lit@.subrange(0, n as int) =~= lit@);
    }
    Some(acc)
}

/// Whether the sequence contains the character.
fn contains_char(v: &Vec<char>, c: char) -> (r: bool)
    ensures
        r == v@.contains(c),
{
    let n = v.len();
    let mut i: usize = 0;
    while i < n
        invariant
            0 <= i <= n,
            n == v@.len(),
            forall|j: int| 0 <= j < i ==> v@[j] != c,
        decreases n - i,
    {
        if v[i] == c {
            return true;
        }
        i += 1;
    }
    false
}

/// Whether every character of the sequence is a decimal digit.
fn digits_only(v: &Vec<char>) -> (r: bool)
    ensures
        r == all_digits(v@),
{
    let n = v.len();
    let mut i: usize = 0;
    while i < n
        invariant
            0 <= i <= n,
            n == v@.len(),
            forall|j: int| 0 <= j < i ==> is_digit(v@[j]),
        decreases n - i,
    {
        if !digit10(v[i]) {
            return false;
        }
        i += 1;
    }
    true
}

/// Whether every character of the sequence is the digit zero.
fn zeros_only(v: &Vec<char>) -> (r: bool)
    ensures
        r == (forall|j: int| 0 <= j < v@.len() ==> v@[j] == '0'),
{
    let n = v.len();
    let mut i: usize = 0;
    while i < n
        invariant
            0 <= i <= n,
            n == v@.len(),
            forall|j: int| 0 <= j < i ==> v@[j] == '0',
        decreases n - i,
    {
        if v[i] != '0' {
            return false;
        }
        i += 1;
    }
    true
}

/// The end of the run of decimal digits starting at `i`.
pub open spec fn digits_end(s: Seq<char>, i: int) -> int
    decreases s.len() - i,
{
    if i < s.len() && is_digit(s[i]) {
        digits_end(s, i + 1)
    } else {
        i
    }
}

proof fn lemma_digits_end(s: Seq<char>, i: int)
    requires
        0 <= i <= s.len(),
    ensures
        i <= digits_end(s, i) <= s.len(),
        forall|j: int| i <= j < digits_end(s, i) ==> is_digit(s[j]),
        digits_end(s, i) < s.len() ==> !is_digit(s[digits_end(s, i)]),
    decreases s.len() - i,
{
    if i < s.len() && is_digit(s[i]) {
        lemma_digits_end(s, i + 1);
    }
}

fn scan_digits(v: &Vec<char>, i: usize) -> (e: usize)
    requires
        i <= v@.len(),
    ensures
        e == digits_end(v@, i as int),
        i <= e <= v@.len(),
{
    proof {
        lemma_digits_end(v@, i as int);
    }
    let n = v.len();
    let mut e = i;
    while e < n && digit10(v[e])
        invariant
            i <= e <= n,
            n == v@.len(),
            digits_end(v@, e as int) == digits_end(v@, i as int),
            forall|j: int| i <= j < e ==> is_digit(v@[j]),
        decreases n - e,
    {
        e += 1;
    }
    e
}

/// Whether the literal text is a well-formed floating-point literal: an
/// optional run of digits, an optional dot with a further run, then an
/// optional exponent `e` with an optional sign and at least one digit; the
/// mantissa must hold at least one digit.
pub open spec fn is_valid_float(s: Seq<char>) -> bool {
    let m = digits_end(s, 0);
    let has_dot = m < s.len() && s[m] == '.';
    let f = if has_dot {
        digits_end(s, m + 1)
    } else {
        m
    };
    let has_digit = if has_dot {
        m > 0 || f > m + 1
    } else {
        m > 0
    };
    has_digit && (f == s.len() || (s[f] == 'e' && valid_exponent(s, f + 1)))
}

/// Whether an exponent part (an optional sign and a nonempty digit run)
/// spans from `i` to the end of the literal.
pub open spec fn valid_exponent(s: Seq<char>, i: int) -> bool {
    let j = if i < s.len() && (s[i] == '+' || s[i] == '-') {
        i + 1
    } else {
        i
    };
    j < s.len() && digits_end(s, j) == s.len()
}

fn is_float_lit(v: &Vec<char>) -> (r: bool)
    ensures
        r == is_valid_float(v@),
{
    let n = v.len();
    let m = scan_digits(v, 0);
    let has_dot = m < n && v[m] == '.';
    let f = if has_dot {
        scan_digits(v, m + 1)
    } else {
        m
    };
    let has_digit = if has_dot {
        m > 0 || f > m + 1
    } else {
        m > 0
    };
    if !has_digit {
        return false;
    }
    if f == n {
        return true;
    }
    if v[f] != 'e' {
        return false;
    }
    let i = f + 1;
    let j = if i < n && (v[i] == '+' || v[i] == '-') {
        i + 1
    } else {
        i
    };
    proof {
        lemma_digits_end(v@, j as int);
    }
    j < n && scan_digits(v, j) == n
}

/// Scans a numeric literal that starts with a non-zero digit: a maximal run
/// of digits, underscores, dots, `e`, `+` and `-`. With a dot or an `e` in
/// it the run is a floating-point literal; otherwise it must be a plain
/// decimal integer that fits a signed 64-bit word.
fn lex_integer(chars: &Vec<char>, start: usize) -> (r: (Result<Lexeme, LexerError>, usize))
    requires
        start < chars@.len(),
        is_digit(chars@[start as int]),
    ensures
        start < r.1 <= chars@.len(),
        forall|j: int| start < j < r.1 ==> is_num_cont(chars@[j]),
        r.1 < chars@.len() ==> !is_num_cont(chars@[r.1 as int]),
        (match r.0 {
            Ok(t) => integer_scan(chars@, start as int) == Ok::<(LexemeView, int), LexerError>(
                (t@, r.1 as int),
            ),
            Err(e) => integer_scan(chars@, start as int) == Err::<(LexemeView, int), LexerError>(
                e,
            ),
        }),
        ({
            let lit = strip_seps(chars@.subrange(start as int, r.1 as int));
            if lit.contains('.') || lit.contains('e') {
                if is_valid_float(lit) {
                    match r.0 {
                        Ok(t) => t matches Lexeme::Float(fv) && fv@ == lit,
                        Err(_) => false,
                    }
                } else {
                    r.0 == Err::<Lexeme, LexerError>(LexerError::InvalidFloat(start))
                }
            } else {
                if all_digits(lit) && base_val(lit, 10) <= 0x7FFF_FFFF_FFFF_FFFF {
                    r.0 == Ok::<Lexeme, LexerError>(
                        Lexeme::Integer(base_val(lit, 10) as i64),
                    )
                } else {
                    r.0 == Err::<Lexeme, LexerError>(LexerError::InvalidInteger(start))
                }
            }
        }),
{
    let n = chars.len();
    let mut end = start + 1;
    let mut lit: Vec<char> = Vec::new();
    lit.push(chars[start]);
    proof {
        assert(chars@.subrange(start as int, start + 1) =~= seq![chars@[start as int]]);
        assert(seq![chars@[start as int]].drop_last() =~= Seq::<char>::empty());
        assert(strip_seps(Seq::<char>::empty()) =~= Seq::<char>::empty());
        assert(lit@ =~= strip_seps(chars@.subrange(start as int, start + 1)));
    }
    while end < n && num_cont(chars[end])
        invariant
            start < end <= n,
            n == chars@.len(),
            forall|j: int| start < j < end ==> is_num_cont(chars@[j]),
            lit@ == strip_seps(chars@.subrange(start as int, end as int)),
        decreases n - end,
    {
        let c = chars[end];
        proof {
            assert(chars@.subrange(start as int, end + 1).drop_last() =~= chars@.subrange(
                start as int,
                end as int,
            ));
        }
        if c != '_' {
            lit.push(c);
        }
        end += 1;
    }
    proof {
        lemma_num_run_end_eq(chars@, start + 1, end as int);
    }
    let has_dot = contains_char(&lit, '.');
    let has_e = contains_char(&lit, 'e');
    if has_dot || has_e {
        if is_float_lit(&lit) {
            (Ok(Lexeme::Float(lit)), end)
        } else {
            (Err(LexerError::InvalidFloat(start)), end)
        }
    } else {
        if digits_only(&lit) {
            match fold_value(&lit, 10) {
                Some(v) => (Ok(Lexeme::Integer(v as i64)), end),
                None => (Err(LexerError::InvalidInteger(start)), end),
            }
        } else {
            (Err(LexerError::InvalidInteger(start)), end)
        }
    }
}

/// Scans what follows a leading zero: a run of digits, underscores, dots,
/// `e`, `+` and `-`. An empty or all-zero run is the integer zero; anything
/// else must be a floating-point literal.
#[verifier::rlimit(30)]
fn lex_leading_zero(chars: &Vec<char>, start: usize) -> (r: (Result<Lexeme, LexerError>, usize))
    requires
        start < chars@.len(),
    ensures
        start < r.1 <= chars@.len(),
        forall|j: int| start < j < r.1 ==> is_num_cont(chars@[j]),
        r.1 < chars@.len() ==> !is_num_cont(chars@[r.1 as int]),
        (match r.0 {
            Ok(t) => leading_zero_scan(chars@, start as int) == Ok::<
                (LexemeView, int),
                LexerError,
            >((t@, r.1 as int)),
            Err(e) => leading_zero_scan(chars@, start as int) == Err::<
                (LexemeView, int),
                LexerError,
            >(e),
        }),
        ({
            let lit = strip_seps(chars@.subrange(start + 1, r.1 as int));
            if lit.len() == 0 || (forall|j: int| 0 <= j < lit.len() ==> lit[j] == '0') {
                r.0 == Ok::<Lexeme, LexerError>(Lexeme::Integer(0))
            } else if is_valid_float(lit) {
                match r.0 {
                    Ok(t) => t matches Lexeme::Float(fv) && fv@ == lit,
                    Err(_) => false,
                }
            } else {
                r.0 == Err::<Lexeme, LexerError>(LexerError::InvalidFloat(start))
            }
        }),
{
    let n = chars.len();
    let mut end = start + 1;
    let mut lit: Vec<char> = Vec::new();
    proof {
        assert(chars@.subrange(start + 1, start + 1) =~= Seq::<char>::empty());
        assert(lit@ =~= strip_seps(chars@.subrange(start + 1, start + 1)));
    }
    while end < n && num_cont(chars[end])
        invariant
            start < end <= n,
            n == chars@.len(),
            forall|j: int| start < j < end ==> is_num_cont(chars@[j]),
            lit@ == strip_seps(chars@.subrange(start + 1, end as int)),
        decreases n - end,
    {
        let c = chars[end];
        proof {
            assert(chars@.subrange(start + 1, end + 1).drop_last() =~= chars@.subrange(
                start + 1,
                end as int,
            ));
        }
        if c != '_' {
            lit.push(c);
        }
        end += 1;
    }
    proof {
        lemma_num_run_end_eq(chars@, start + 1, end as int);
        assert(num_run_end(chars@, start + 1) == end);
        assert(strip_seps(chars@.subrange(start + 1, end as int)) == lit@);
    }
    if lit.len() == 0 || zeros_only(&lit) {
        proof {
            assert(leading_zero_scan(chars@, start as int) == Ok::<
                (LexemeView, int),
                LexerError,
            >((LexemeView::Integer(0), end as int)));
        }
        (Ok(Lexeme::Integer(0)), end)
    } else if is_float_lit(&lit) {
        proof {
            assert(leading_zero_scan(chars@, start as int) == Ok::<
                (LexemeView, int),
                LexerError,
            >((LexemeView::Float(lit@), end as int)));
        }
        (Ok(Lexeme::Float(lit)), end)
    } else {
        proof {
            assert(leading_zero_scan(chars@, start as int) == Err::<
                (LexemeView, int),
                LexerError,
            >(LexerError::InvalidFloat(start)));
        }
        (Err(LexerError::InvalidFloat(start)), end)
    }
}

/// Scans a binary, octal or hexadecimal literal after its `0b`, `0o` or
/// `0x` marker: a run of digits of that base and underscores, folded into a
/// signed 64-bit integer. A digit of another base or a letter directly
/// after the run, or a value beyond the 64-bit signed range, is an invalid
/// integer.
fn lex_radix(chars: &Vec<char>, start: usize, b: u64) -> (r: (Result<Lexeme, LexerError>, usize))
    requires
        start < chars@.len(),
        chars@.len() - start >= 2,
        2 <= b <= 16,
    ensures
        start + 2 <= r.1 <= chars@.len(),
        forall|j: int|
            start + 2 <= j < r.1 ==> (is_base_digit(chars@[j], b as int) || chars@[j] == '_'),
        r.1 < chars@.len() ==> !(is_base_digit(chars@[r.1 as int], b as int) || chars@[r.1 as int]
            == '_'),
        (match r.0 {
            Ok(t) => radix_scan(chars@, start as int, b as int) == Ok::<
                (LexemeView, int),
                LexerError,
            >((t@, r.1 as int)),
            Err(e) => radix_scan(chars@, start as int, b as int) == Err::<
                (LexemeView, int),
                LexerError,
            >(e),
        }),
        ({
            let lit = strip_seps(chars@.subrange(start + 2, r.1 as int));
            let garbage = r.1 < chars@.len() && (char_alphanumeric(chars@[r.1 as int])
                || chars@[r.1 as int] == '.');
            if garbage {
                r.0 == Err::<Lexeme, LexerError>(LexerError::InvalidInteger(start))
            } else if base_val(lit, b as int) > 0x7FFF_FFFF_FFFF_FFFF {
                r.0 == Err::<Lexeme, LexerError>(LexerError::InvalidInteger(start))
            } else {
                r.0 == Ok::<Lexeme, LexerError>(Lexeme::Integer(base_val(lit, b as int) as i64))
            }
        }),
{
    let n = chars.len();
    let mut end = start + 2;
    let mut lit: Vec<char> = Vec::new();
    proof {
        assert(chars@.subrange(start + 2, start + 2) =~= Seq::<char>::empty());
        assert(lit@ =~= strip_seps(chars@.subrange(start + 2, start + 2)));
    }
    loop
        invariant
            start + 2 <= end <= n,
            n == chars@.len(),
            2 <= b <= 16,
            forall|j: int|
                start + 2 <= j < end ==> (is_base_digit(chars@[j], b as int) || chars@[j] == '_'),
            lit@ == strip_seps(chars@.subrange(start + 2, end as int)),
            forall|i: int| 0 <= i < lit@.len() ==> is_base_digit(lit@[i], b as int),
        ensures
            start + 2 <= end <= n,
            forall|j: int|
                start + 2 <= j < end ==> (is_base_digit(chars@[j], b as int) || chars@[j] == '_'),
            lit@ == strip_seps(chars@.subrange(start + 2, end as int)),
            forall|i: int| 0 <= i < lit@.len() ==> is_base_digit(lit@[i], b as int),
            end == n || !(is_base_digit(chars@[end as int], b as int) || chars@[end as int] == '_'),
        decreases n - end,
    {
        if end >= n {
            break;
        }
        let c = chars[end];
        let is_digit_here = match hex_digit(c) {
            Some(v) => (v as u64) < b,
            None => false,
        };
        if !is_digit_here && c != '_' {
            break;
        }
        proof {
            assert(chars@.subrange(start + 2, end + 1).drop_last() =~= chars@.subrange(
                start + 2,
                end as int,
            ));
        }
        if c != '_' {
            lit.push(c);
        }
        end += 1;
    }
    proof {
        lemma_radix_run_end_eq(chars@, start + 2, end as int, b as int);
        assert(radix_run_end(chars@, start + 2, b as int) == end);
        assert(strip_seps(chars@.subrange(start + 2, end as int)) == lit@);
    }
    if end < n && (is_alphanumeric_char(chars[end]) || chars[end] == '.') {
        proof {
            assert(radix_scan(chars@, start as int, b as int) == Err::<
                (LexemeView, int),
                LexerError,
            >(LexerError::InvalidInteger(start)));
        }
        return (Err(LexerError::InvalidInteger(start)), end);
    }
    match fold_value(&lit, b) {
        Some(v) => {
            proof {
                assert(radix_scan(chars@, start as int, b as int) == Ok::<
                    (LexemeView, int),
                    LexerError,
                >((LexemeView::Integer(v as i64), end as int)));
            }
            (Ok(Lexeme::Integer(v as i64)), end)
        },
        None => {
            proof {
                assert(radix_scan(chars@, start as int, b as int) == Err::<
                    (LexemeView, int),
                    LexerError,
                >(LexerError::InvalidInteger(start)));
            }
            (Err(LexerError::InvalidInteger(start)), end)
        },
    }
}

/// Scans what follows a leading dot: a run of digits, `e`, `+` and `-`. An
/// empty run is the Access operator; anything else must be a floating-point
/// literal read with the dot in front.
fn lex_leading_dot(chars: &Vec<char>, start: usize) -> (r: (Result<Lexeme, LexerError>, usize))
    requires
        start < chars@.len(),
        chars@[start as int] == '.',
    ensures
        start < r.1 <= chars@.len(),
        (match r.0 {
            Ok(t) => leading_dot_scan(chars@, start as int) == Ok::<
                (LexemeView, int),
                LexerError,
            >((t@, r.1 as int)),
            Err(e) => leading_dot_scan(chars@, start as int) == Err::<
                (LexemeView, int),
                LexerError,
            >(e),
        }),
        ({
            let lit = chars@.subrange(start as int, r.1 as int);
            if lit.len() == 1 {
                r.0 == Ok::<Lexeme, LexerError>(Lexeme::Operator(Operator::Access))
            } else if is_valid_float(lit) {
                match r.0 {
                    Ok(t) => t matches Lexeme::Float(fv) && fv@ == lit,
                    Err(_) => false,
                }
            } else {
                r.0 == Err::<Lexeme, LexerError>(LexerError::InvalidFloat(start))
            }
        }),
{
    let n = chars.len();
    let mut end = start + 1;
    let mut lit: Vec<char> = Vec::new();
    lit.push('.');
    proof {
        assert(lit@ =~= chars@.subrange(start as int, start + 1));
    }
    while end < n && (digit10(chars[end]) || chars[end] == 'e' || chars[end] == '+' || chars[end]
        == '-')
        invariant
            start < end <= n,
            n == chars@.len(),
            lit@ == chars@.subrange(start as int, end as int),
            forall|j: int| start < j < end ==> is_dot_cont(chars@[j]),
        decreases n - end,
    {
        lit.push(chars[end]);
        proof {
            assert(chars@.subrange(start as int, end + 1) =~= chars@.subrange(
                start as int,
                end as int,
            ).push(chars@[end as int]));
        }
        end += 1;
    }
    proof {
        lemma_dot_run_end_eq(chars@, start + 1, end as int);
        assert(dot_run_end(chars@, start + 1) == end);
    }
    if lit.len() == 1 {
        proof {
            assert(leading_dot_scan(chars@, start as int) == Ok::<
                (LexemeView, int),
                LexerError,
            >((LexemeView::Operator(Operator::Access), end as int)));
        }
        (Ok(Lexeme::Operator(Operator::Access)), end)
    } else if is_float_lit(&lit) {
        proof {
            assert(leading_dot_scan(chars@, start as int) == Ok::<
                (LexemeView, int),
                LexerError,
            >((LexemeView::Float(lit@), end as int)));
        }
        (Ok(Lexeme::Float(lit)), end)
    } else {
        proof {
            assert(leading_dot_scan(chars@, start as int) == Err::<
                (LexemeView, int),
                LexerError,
            >(LexerError::InvalidFloat(start)));
        }
        (Err(LexerError::InvalidFloat(start)), end)
    }
}

/// Scans a numeric literal: a leading zero followed by a base marker
/// switches to binary, octal or hexadecimal scanning; any other leading
/// zero falls back to the leading-zero scan; a non-zero digit starts a
/// decimal or floating-point literal.
fn lex_number(chars: &Vec<char>, start: usize) -> (r: (Result<Lexeme, LexerError>, usize))
    requires
        start < chars@.len(),
        is_digit(chars@[start as int]),
    ensures
        start < r.1 <= chars@.len(),
        r.0 matches Ok(t) ==> (t is Integer || t is Float),
        r.0 matches Err(e) ==> !(e is Continue) && !(e is IndentationError),
        (match r.0 {
            Ok(t) => number_scan(chars@, start as int) == Ok::<(LexemeView, int), LexerError>(
                (t@, r.1 as int),
            ),
            Err(e) => number_scan(chars@, start as int) == Err::<(LexemeView, int), LexerError>(
                e,
            ),
        }),
{
    let n = chars.len();
    if chars[start] == '0' {
        if n - start >= 2 {
            let c = chars[start + 1];
            if c == 'b' || c == 'B' {
                lex_radix(chars, start, 2)
            } else if c == 'o' || c == 'O' {
                lex_radix(chars, start, 8)
            } else if c == 'x' || c == 'X' {
                lex_radix(chars, start, 16)
            } else {
                lex_leading_zero(chars, start)
            }
        } else {
            (Ok(Lexeme::Integer(0)), start + 1)
        }
    } else {
        lex_integer(chars, start)
    }
}

/// A run of base digits is bounded by the base raised to its length.
proof fn lemma_base_val_bound(s: Seq<char>, b: int)
    requires
        2 <= b <= 16,
        forall|i: int| 0 <= i < s.len() ==> is_base_digit(s[i], b),
    ensures
        base_val(s, b) < vstd::arithmetic::power::pow(b, s.len() as nat),
    decreases s.len(),
{
    vstd::arithmetic::power::lemma_pow_positive(b, s.len() as nat);
    if s.len() == 0 {
    } else {
        let p = s.drop_last();
        assert(forall|i: int| 0 <= i < p.len() ==> is_base_digit(p[i], b));
        lemma_base_val_bound(p, b);
        vstd::arithmetic::power::lemma_pow_positive(b, p.len() as nat);
        let q = vstd::arithmetic::power::pow(b, p.len() as nat);
        assert(vstd::arithmetic::power::pow(b, s.len() as nat) == b * q) by {
            vstd::arithmetic::power::lemma_pow1(b);
            vstd::arithmetic::power::lemma_pow_adds(b, 1, p.len() as nat);
        }
        assert(hexv(s.last()) < b);
        assert(base_val(p, b) * b + hexv(s.last()) < b * q) by (nonlinear_arith)
            requires
                base_val(p, b) < q,
                hexv(s.last()) < b,
                b >= 2,
                q >= 1,
        ;
    }
}

/// Reads exactly `count` hexadecimal digits at `pos` and returns their
/// value, or `None` when the input ends first or a non-digit appears.
fn read_hex(chars: &Vec<char>, pos: usize, count: usize) -> (r: Option<(u32, usize)>)
    requires
        pos <= chars@.len(),
        1 <= count <= 8,
    ensures
        r matches Some(pair) ==> pair.1 == pos + count && pos + count <= chars@.len() && (
        forall|j: int| pos <= j < pos + count ==> hex_val(chars@[j]) is Some) && pair.0
            == base_val(chars@.subrange(pos as int, pos + count), 16),
        r is None ==> (pos + count > chars@.len() || exists|j: int|
            pos <= j < pos + count && (#[trigger] hex_val(chars@[j])) is None),
{
    let n = chars.len();
    if n - pos < count {
        return None;
    }
    let mut acc: u64 = 0;
    let mut i: usize = 0;
    while i < count
        invariant
            0 <= i <= count <= 8,
            pos + count <= n,
            n == chars@.len(),
            forall|j: int| pos <= j < pos + i ==> hex_val(chars@[j]) is Some,
            acc == base_val(chars@.subrange(pos as int, pos + i), 16),
        decreases count - i,
    {
        proof {
            let pref = chars@.subrange(pos as int, pos + i);
            assert(forall|k: int| 0 <= k < pref.len() ==> is_base_digit(pref[k], 16));
            lemma_base_val_bound(pref, 16);
            vstd::arithmetic::power::lemma_pow_increases(16, i as nat, 7);
            reveal_with_fuel(vstd::arithmetic::power::pow, 8);
            assert(vstd::arithmetic::power::pow(16, 7) == 0x10000000);
        }
        let d: u64 = match hex_digit(chars[pos + i]) {
            Some(v) => v as u64,
            None => {
                return None;
            },
        };
        proof {
            assert(chars@.subrange(pos as int, pos + i + 1).drop_last() =~= chars@.subrange(
                pos as int,
                pos + i,
            ));
        }
        acc = acc * 16 + d;
        i += 1;
    }
    proof {
        let full = chars@.subrange(pos as int, pos + count);
        assert(forall|k: int| 0 <= k < full.len() ==> is_base_digit(full[k], 16));
        lemma_base_val_bound(full, 16);
        vstd::arithmetic::power::lemma_pow_increases(16, count as nat, 8);
        reveal_with_fuel(vstd::arithmetic::power::pow, 9);
        assert(vstd::arithmetic::power::pow(16, 8) == 0x100000000);
    }
    Some((acc as u32, pos + count))
}

/// A Unicode scalar value: not a surrogate and at most 0x10FFFF.
pub open spec fn valid_scalar(v: int) -> bool {
    v < 0xD800 || (0xE000 <= v <= 0x10FFFF)
}

/// The character a simple escape designator denotes.
pub open spec fn simple_escape(c: char) -> Option<char> {
    if c == 't' {
        Some('\t')
    } else if c == 'n' {
        Some('\n')
    } else if c == 'r' {
        Some('\r')
    } else if c == '\'' {
        Some('\'')
    } else if c == '"' {
        Some('"')
    } else if c == 'a' {
        Some('\u{7}')
    } else if c == 'b' {
        Some('\u{8}')
    } else if c == 'f' {
        Some('\u{C}')
    } else if c == 'v' {
        Some('\u{B}')
    } else if c == '\\' {
        Some('\\')
    } else {
        None
    }
}

/// A character is determined by its code point.
proof fn lemma_char_of_code(v: u32, d: char)
    requires
        d as u32 == v,
        v < 0xD800 || (0xE000 <= v && v <= 0x10FFFF),
    ensures
        d == (v as char),
{
}

/// The outcome of decoding one backslash escape whose designator stands at
/// `p` (the backslash is just before it): the decoded character (`None`
/// for an elided backslash before a newline) and the position after the
/// escape, or the lex error. Hex escapes read exactly two digits, unicode
/// escapes four or eight (and are rejected inside bytes literals); any
/// other designator must open a three-digit octal escape. Hex and unicode
/// errors carry the offset of the whole literal, `str_start`.
pub open spec fn escape_scan(s: Seq<char>, p: int, bytes_mode: bool, str_start: usize) -> Result<
    (Option<char>, int),
    LexerError,
> {
    if p >= s.len() {
        Err(LexerError::Eof)
    } else {
        let c = s[p];
        if simple_escape(c) is Some {
            Ok((simple_escape(c), p + 1))
        } else if c == '\n' {
            Ok((None, p + 1))
        } else if c == 'x' {
            if p + 3 <= s.len() && (forall|j: int| p + 1 <= j < p + 3 ==> hex_val(s[j]) is Some) {
                Ok((Some((base_val(s.subrange(p + 1, p + 3), 16) as u32) as char), p + 3))
            } else {
                Err(LexerError::InvalidHex(str_start))
            }
        } else if c == 'u' && !bytes_mode {
            if p + 5 <= s.len() && (forall|j: int| p + 1 <= j < p + 5 ==> hex_val(s[j]) is Some)
                && valid_scalar(base_val(s.subrange(p + 1, p + 5), 16)) {
                Ok((Some((base_val(s.subrange(p + 1, p + 5), 16) as u32) as char), p + 5))
            } else {
                Err(LexerError::InvalidUnicode16(str_start))
            }
        } else if c == 'U' && !bytes_mode {
            if p + 9 <= s.len() && (forall|j: int| p + 1 <= j < p + 9 ==> hex_val(s[j]) is Some)
                && valid_scalar(base_val(s.subrange(p + 1, p + 9), 16)) {
                Ok((Some((base_val(s.subrange(p + 1, p + 9), 16) as u32) as char), p + 9))
            } else {
                Err(LexerError::InvalidUnicode32(str_start))
            }
        } else if (c == 'u' || c == 'U') && bytes_mode {
            Err(LexerError::InvalidEscape(p as usize))
        } else {
            if p + 3 > s.len() {
                Err(LexerError::Eof)
            } else if is_octal_digit(c) && is_octal_digit(s[p + 1]) && is_octal_digit(s[p + 2]) {
                Ok(
                    (
                        Some(
                            ((digit_val(c) * 64 + digit_val(s[p + 1]) * 8 + digit_val(
                                s[p + 2],
                            )) as u32) as char,
                        ),
                        p + 3,
                    ),
                )
            } else {
                Err(LexerError::InvalidOctal(p as usize))
            }
        }
    }
}

/// The rest of a string or bytes literal read from position `p`, with the
/// characters decoded so far in `acc`: characters accumulate up to the
/// matching (single or triple) closing quote, escapes go through
/// `escape_scan` unless `raw` is set, and the result is the decoded content
/// together with the position after the closing quote, or the lex error
/// (`Eof` when the input ends before the literal closes).
pub open spec fn string_scan(
    s: Seq<char>,
    p: int,
    quote: char,
    triple: bool,
    raw: bool,
    bytes_mode: bool,
    str_start: usize,
    acc: Seq<char>,
) -> Result<(Seq<char>, int), LexerError>
    decreases s.len() - p,
{
    if p < 0 || p >= s.len() {
        Err(LexerError::Eof)
    } else {
        let c = s[p];
        if c == quote {
            if triple {
                if p + 3 <= s.len() && s[p + 1] == quote && s[p + 2] == quote {
                    Ok((acc, p + 3))
                } else {
                    string_scan(s, p + 1, quote, triple, raw, bytes_mode, str_start, acc.push(c))
                }
            } else {
                Ok((acc, p + 1))
            }
        } else if c == '\\' && !raw {
            match escape_scan(s, p + 1, bytes_mode, str_start) {
                Ok((oc, q)) => {
                    let acc2 = match oc {
                        Some(d) => acc.push(d),
                        None => acc,
                    };
                    string_scan(s, q, quote, triple, raw, bytes_mode, str_start, acc2)
                },
                Err(e) => Err(e),
            }
        } else {
            string_scan(s, p + 1, quote, triple, raw, bytes_mode, str_start, acc.push(c))
        }
    }
}

/// Decodes one backslash escape inside a string or bytes literal. `pos`
/// stands on the character after the backslash; the result is exactly what
/// `escape_scan` says of that position.
fn decode_escape(chars: &Vec<char>, pos: usize, str_start: usize, bytes_mode: bool) -> (r: Result<
    (Option<char>, usize),
    LexerError,
>)
    requires
        pos <= chars@.len(),
    ensures
        r matches Ok(pair) ==> pos < pair.1 <= chars@.len(),
        (match r {
            Ok((oc, q)) => escape_scan(chars@, pos as int, bytes_mode, str_start) == Ok::<
                (Option<char>, int),
                LexerError,
            >((oc, q as int)),
            Err(e) => escape_scan(chars@, pos as int, bytes_mode, str_start) == Err::<
                (Option<char>, int),
                LexerError,
            >(e),
        }),
{
    let n = chars.len();
    if pos >= n {
        return Err(LexerError::Eof);
    }
    let c = chars[pos];
    if c == 't' {
        Ok((Some('\t'), pos + 1))
    } else if c == 'n' {
        Ok((Some('\n'), pos + 1))
    } else if c == 'r' {
        Ok((Some('\r'), pos + 1))
    } else if c == '\'' {
        Ok((Some('\''), pos + 1))
    } else if c == '"' {
        Ok((Some('"'), pos + 1))
    } else if c == 'a' {
        Ok((Some('\u{7}'), pos + 1))
    } else if c == 'b' {
        Ok((Some('\u{8}'), pos + 1))
    } else if c == 'f' {
        Ok((Some('\u{C}'), pos + 1))
    } else if c == 'v' {
        Ok((Some('\u{B}'), pos + 1))
    } else if c == '\\' {
        Ok((Some('\\'), pos + 1))
    } else if c == '\n' {
        Ok((None, pos + 1))
    } else if c == 'x' {
        match read_hex(chars, pos + 1, 2) {
            Some((v, p2)) => {
                proof {
                    let s2 = chars@.subrange(pos + 1, pos + 3);
                    assert(forall|k: int| 0 <= k < s2.len() ==> is_base_digit(s2[k], 16));
                    lemma_base_val_bound(s2, 16);
                    reveal_with_fuel(vstd::arithmetic::power::pow, 3);
                    assert(vstd::arithmetic::power::pow(16, 2) == 256);
                }
                match char_from_u32(v) {
                    Some(d) => {
                        proof {
                            let bv = base_val(chars@.subrange(pos + 1, pos + 3), 16);
                            assert(bv == v as int);
                            assert(bv as u32 == v);
                            assert(d as u32 == v);
                            lemma_char_of_code(v, d);
                            assert(d == ((bv as u32) as char));
                        }
                        Ok((Some(d), p2))
                    },
                    None => Err(LexerError::InvalidHex(str_start)),
                }
            },
            None => Err(LexerError::InvalidHex(str_start)),
        }
    } else if c == 'u' && !bytes_mode {
        match read_hex(chars, pos + 1, 4) {
            Some((v, p2)) => match char_from_u32(v) {
                Some(d) => {
                    proof {
                        let bv = base_val(chars@.subrange(pos + 1, pos + 5), 16);
                        assert(bv == v as int);
                        assert(bv as u32 == v);
                        assert(d as u32 == v);
                        lemma_char_of_code(v, d);
                        assert(d == ((bv as u32) as char));
                    }
                    Ok((Some(d), p2))
                },
                None => Err(LexerError::InvalidUnicode16(str_start)),
            },
            None => Err(LexerError::InvalidUnicode16(str_start)),
        }
    } else if c == 'U' && !bytes_mode {
        match read_hex(chars, pos + 1, 8) {
            Some((v, p2)) => match char_from_u32(v) {
                Some(d) => {
                    proof {
                        let bv = base_val(chars@.subrange(pos + 1, pos + 9), 16);
                        assert(bv == v as int);
                        assert(bv as u32 == v);
                        assert(d as u32 == v);
                        lemma_char_of_code(v, d);
                        assert(d == ((bv as u32) as char));
                    }
                    Ok((Some(d), p2))
                },
                None => Err(LexerError::InvalidUnicode32(str_start)),
            },
            None => Err(LexerError::InvalidUnicode32(str_start)),
        }
    } else if c == 'u' || c == 'U' {
        Err(LexerError::InvalidEscape(pos))
    } else {
        if n - pos < 3 {
            return Err(LexerError::Eof);
        }
        let c2 = chars[pos + 1];
        let c3 = chars[pos + 2];
        if digit8(c) && digit8(c2) && digit8(c3) {
            let v: u32 = (c as u32 - 48) * 64 + (c2 as u32 - 48) * 8 + (c3 as u32 - 48);
            match char_from_u32(v) {
                Some(d) => {
                    proof {
                        let bv = digit_val(c) * 64 + digit_val(chars@[pos + 1]) * 8 + digit_val(
                            chars@[pos + 2],
                        );
                        assert(bv == v as int);
                        assert(bv as u32 == v);
                        assert(d as u32 == v);
                        lemma_char_of_code(v, d);
                        assert(d == ((bv as u32) as char));
                    }
                    Ok((Some(d), pos + 3))
                },
                None => {
                    proof {
                        assert(false);
                    }
                    Err(LexerError::InvalidOctal(pos))
                },
            }
        } else {
            Err(LexerError::InvalidOctal(pos))
        }
    }
}

/// The UTF-8 encoding of a sequence of characters, in order.
pub open spec fn utf8_of_seq(s: Seq<char>) -> Seq<u8>
    decreases s.len(),
{
    if s.len() == 0 {
        Seq::empty()
    } else {
        utf8_of_seq(s.drop_last()) + utf8_seq(s.last())
    }
}

/// Encodes decoded string content as UTF-8 bytes.
fn encode_utf8(content: &Vec<char>) -> (out: Vec<u8>)
    ensures
        out@ == utf8_of_seq(content@),
{
    let n = content.len();
    let mut out: Vec<u8> = Vec::new();
    let mut i: usize = 0;
    proof {
        assert(content@.subrange(0, 0) =~= Seq::<char>::empty());
        assert(out@ =~= utf8_of_seq(content@.subrange(0, 0)));
    }
    while i < n
        invariant
            0 <= i <= n,
            n == content@.len(),
            out@ == utf8_of_seq(content@.subrange(0, i as int)),
        decreases n - i,
    {
        proof {
            assert(content@.subrange(0, i + 1).drop_last() =~= content@.subrange(0, i as int));
        }
        push_utf8(&mut out, content[i]);
        i += 1;
    }
    proof {
        assert(content@.subrange(0, n as int) =~= content@);
    }
    out
}

/// Scans the rest of a string or bytes literal whose opening quote stands
/// just before `pos`: a doubled quote at `pos` makes it a triple-quoted
/// literal. Characters are accumulated up to the matching closing quote,
/// with backslash escapes decoded unless the Raw prefix flag is set. With
/// the Bytes flag the content is handed back UTF-8 encoded as a bytes
/// token, otherwise as a text token; both carry the literal's offset.
fn lex_str(chars: &Vec<char>, start: usize, pos: usize, quote: char, p1: Prefix, p2: Prefix) -> (r:
    (Result<Lexeme, LexerError>, usize))
    requires
        pos <= chars@.len(),
    ensures
        pos <= r.1 <= chars@.len(),
        r.0 is Ok ==> r.1 > pos,
        r.0 matches Err(e) ==> !(e is Continue) && !(e is IndentationError),
        (match r.0 {
            Ok(t) => string_lex(chars@, start, pos as int, quote, p1, p2) == Ok::<
                (LexemeView, int),
                LexerError,
            >((t@, r.1 as int)),
            Err(e) => string_lex(chars@, start, pos as int, quote, p1, p2) == Err::<
                (LexemeView, int),
                LexerError,
            >(e),
        }),
        ({
            let triple = pos + 2 <= chars@.len() && chars@[pos as int] == quote && chars@[pos + 1]
                == quote;
            let body = if triple {
                pos + 2
            } else {
                pos as int
            };
            let is_raw = p1 == Prefix::Raw || p2 == Prefix::Raw;
            let is_bytes = p1 == Prefix::Bytes || p2 == Prefix::Bytes;
            match string_scan(chars@, body, quote, triple, is_raw, is_bytes, start, Seq::empty()) {
                Ok(res) => r.1 == res.1 && (match r.0 {
                    Ok(t) => if is_bytes {
                        t matches Lexeme::Bytes(s2, b) && s2 == start && b@ == utf8_of_seq(res.0)
                    } else {
                        t matches Lexeme::Str(s2, cv) && s2 == start && cv@ == res.0
                    },
                    Err(_) => false,
                }),
                Err(err) => r.0 == Err::<Lexeme, LexerError>(err),
            }
        }),
{
    let raw = matches!(p1, Prefix::Raw) || matches!(p2, Prefix::Raw);
    let bytes_mode = matches!(p1, Prefix::Bytes) || matches!(p2, Prefix::Bytes);
    let n = chars.len();
    let mut p = pos;
    let mut quote3 = false;
    if n - p >= 2 && chars[p] == quote && chars[p + 1] == quote {
        quote3 = true;
        p += 2;
    }
    let ghost body0 = p as int;
    let mut content: Vec<char> = Vec::new();
    proof {
        assert(content@ =~= Seq::<char>::empty());
    }
    loop
        invariant_except_break
            string_scan(chars@, body0, quote, quote3, raw, bytes_mode, start, Seq::empty())
                == string_scan(
                chars@,
                p as int,
                quote,
                quote3,
                raw,
                bytes_mode,
                start,
                content@,
            ),
        invariant
            pos <= p <= n,
            n == chars@.len(),
            quote3 ==> p >= pos + 2,
            quote3 == (pos + 2 <= chars@.len() && chars@[pos as int] == quote && chars@[pos + 1]
                == quote),
            raw == (p1 == Prefix::Raw || p2 == Prefix::Raw),
            bytes_mode == (p1 == Prefix::Bytes || p2 == Prefix::Bytes),
            body0 == (if quote3 {
                pos + 2
            } else {
                pos as int
            }),
        ensures
            pos < p <= n,
            string_scan(chars@, body0, quote, quote3, raw, bytes_mode, start, Seq::empty()) == Ok::<
                (Seq<char>, int),
                LexerError,
            >((content@, p as int)),
        decreases n - p,
    {
        if p >= n {
            return (Err(LexerError::Eof), p);
        }
        let c = chars[p];
        if c == quote {
            if quote3 {
                if n - p >= 3 && chars[p + 1] == quote && chars[p + 2] == quote {
                    p += 3;
                    break;
                } else {
                    content.push(c);
                    p += 1;
                }
            } else {
                p += 1;
                break;
            }
        } else if c == '\\' && !raw {
            match decode_escape(chars, p + 1, start, bytes_mode) {
                Ok((Some(d), p2)) => {
                    content.push(d);
                    p = p2;
                },
                Ok((None, p2)) => {
                    p = p2;
                },
                Err(err) => {
                    return (Err(err), p);
                },
            }
        } else {
            content.push(c);
            p += 1;
        }
    }
    if bytes_mode {
        let b = encode_utf8(&content);
        (Ok(Lexeme::Bytes(start, b)), p)
    } else {
        (Ok(Lexeme::Str(start, content)), p)
    }
}

/// The end of the run of word characters (alphanumerics or underscores)
/// starting at `i`.
pub open spec fn word_end(s: Seq<char>, i: int) -> int
    decreases s.len() - i,
{
    if i < s.len() && is_word_char(s[i]) {
        word_end(s, i + 1)
    } else {
        i
    }
}

proof fn lemma_word_end(s: Seq<char>, i: int)
    requires
        0 <= i <= s.len(),
    ensures
        i <= word_end(s, i) <= s.len(),
        forall|j: int| i <= j < word_end(s, i) ==> is_word_char(s[j]),
        word_end(s, i) < s.len() ==> !is_word_char(s[word_end(s, i)]),
    decreases s.len() - i,
{
    if i < s.len() && is_word_char(s[i]) {
        lemma_word_end(s, i + 1);
    }
}

/// Scans a word starting at `start`: a maximal run of alphanumerics and
/// underscores. A word directly followed by a quote is read as a string
/// prefix, rejecting unknown spellings; otherwise the word is classified
/// against the keyword set, defaulting to an identifier.
fn lex_word(chars: &Vec<char>, start: usize) -> (r: (Result<Lexeme, LexerError>, usize))
    requires
        start < chars@.len(),
    ensures
        start < r.1 <= chars@.len(),
        r.0 matches Err(e) ==> !(e is Continue) && !(e is IndentationError),
        (match r.0 {
            Ok(t) => word_scan(chars@, start as int) == Ok::<(LexemeView, int), LexerError>(
                (t@, r.1 as int),
            ),
            Err(e) => word_scan(chars@, start as int) == Err::<(LexemeView, int), LexerError>(e),
        }),
        ({
            let we = word_end(chars@, start + 1);
            let word = chars@.subrange(start as int, we);
            let quoted = we < chars@.len() && (chars@[we] == '"' || chars@[we] == '\'');
            if quoted {
                if Prefix::of_chars(word) is None {
                    r.0 == Err::<Lexeme, LexerError>(LexerError::InvalidPrefix(start)) && r.1 == we
                } else {
                    match r.0 {
                        Ok(t) => r.1 > we && (match Prefix::of_chars(word) {
                            Some(pp) => if pp.0 == Prefix::Bytes || pp.1 == Prefix::Bytes {
                                t matches Lexeme::Bytes(s2, _) && s2 == start
                            } else {
                                t matches Lexeme::Str(s2, _) && s2 == start
                            },
                            None => false,
                        }),
                        Err(_) => true,
                    }
                }
            } else {
                r.1 == we && (match Keyword::of_chars(word) {
                    Some(k) => r.0 == Ok::<Lexeme, LexerError>(Lexeme::Keyword(start, k)),
                    None => (match r.0 {
                        Ok(t) => t matches Lexeme::Identifier(s2, w) && s2 == start && w@ == word,
                        Err(_) => false,
                    }),
                })
            }
        }),
{
    let n = chars.len();
    let mut end = start + 1;
    let mut word: Vec<char> = Vec::new();
    word.push(chars[start]);
    proof {
        lemma_word_end(chars@, start + 1);
        assert(word@ =~= chars@.subrange(start as int, start + 1));
    }
    while end < n && (is_alphanumeric_char(chars[end]) || chars[end] == '_')
        invariant
            start < end <= n,
            n == chars@.len(),
            word@ == chars@.subrange(start as int, end as int),
            word_end(chars@, end as int) == word_end(chars@, start + 1),
            forall|j: int| start + 1 <= j < end ==> is_word_char(chars@[j]),
        decreases n - end,
    {
        word.push(chars[end]);
        proof {
            assert(chars@.subrange(start as int, end + 1) =~= chars@.subrange(
                start as int,
                end as int,
            ).push(chars@[end as int]));
        }
        end += 1;
    }
    if end < n && (chars[end] == '"' || chars[end] == '\'') {
        match Prefix::is_prefix(word.as_slice()) {
            None => (Err(LexerError::InvalidPrefix(start)), end),
            Some((p1, p2)) => lex_str(chars, start, end + 1, chars[end], p1, p2),
        }
    } else {
        match Keyword::is_keyword(word.as_slice()) {
            Some(k) => (Ok(Lexeme::Keyword(start, k)), end),
            None => (Ok(Lexeme::Identifier(start, word)), end),
        }
    }
}

/// Handles a backslash outside a string: immediately before a line
/// terminator it is an explicit line continuation and is swallowed with
/// the terminator; anywhere else it is a lex error.
fn lex_escape(chars: &Vec<char>, start: usize) -> (r: (Result<(), LexerError>, usize))
    requires
        start < chars@.len(),
    ensures
        start < r.1 <= chars@.len(),
        (if start + 1 >= chars@.len() {
            r.0 == Err::<(), LexerError>(LexerError::Eof)
        } else if is_line_term(chars@[start + 1]) {
            r.0 == Ok::<(), LexerError>(()) && r.1 == start + 2
        } else {
            r.0 == Err::<(), LexerError>(LexerError::InvalidEscape((start + 1) as usize))
        }),
{
    let n = chars.len();
    if n - start < 2 {
        (Err(LexerError::Eof), start + 1)
    } else if line_term(chars[start + 1]) {
        (Ok(()), start + 2)
    } else {
        (Err(LexerError::InvalidEscape(start + 1)), start + 1)
    }
}

/// The end of the run of leading whitespace (spaces and tabs, one column
/// each) starting at `i`.
pub open spec fn ws_end(s: Seq<char>, i: int) -> int
    decreases s.len() - i,
{
    if i < s.len() && (s[i] == ' ' || s[i] == '\t') {
        ws_end(s, i + 1)
    } else {
        i
    }
}

/// Whether the line starting at `i` is blank: its terminator, or the end
/// of the input, comes before any non-whitespace character.
pub open spec fn is_blank_line(s: Seq<char>, i: int) -> bool {
    ws_end(s, i) >= s.len() || is_line_term(s[ws_end(s, i)])
}

/// The top of the indentation stack; an empty stack has top zero.
pub open spec fn stack_top(st: Seq<usize>) -> int {
    if st.len() == 0 {
        0
    } else {
        st.last() as int
    }
}

/// The indentation stack with every width greater than `w` popped.
pub open spec fn popped_stack(st: Seq<usize>, w: int) -> Seq<usize>
    decreases st.len(),
{
    if st.len() > 0 && st.last() > w {
        popped_stack(st.drop_last(), w)
    } else {
        st
    }
}

/// The indentation stack after a non-blank line of leading width `w`: a
/// width above the current top opens one level; otherwise every deeper
/// level is closed. The line is consistent exactly when the resulting top
/// is `w` itself.
pub open spec fn next_stack(st: Seq<usize>, w: int) -> Seq<usize> {
    if w > stack_top(st) {
        st.push(w as usize)
    } else {
        popped_stack(st, w)
    }
}

/// The scan of the whole source from position `p` with indentation stack
/// `st`: blank lines are skipped, every other line contributes its
/// indentation markers, its tokens and its Newline, and the first lex
/// error ends the scan.
pub open spec fn sp_lines(s: Seq<char>, p: int, st: Seq<usize>, acc: Seq<LexemeView>) -> Result<
    Seq<LexemeView>,
    LexerError,
>
    decreases s.len() - p,
{
    if p < 0 || p >= s.len() {
        Ok(acc)
    } else {
        let we = ws_end(s, p);
        let w = we - p;
        if is_blank_line(s, p) {
            sp_lines(
                s,
                bump_within(
                    p,
                    if we < s.len() {
                        we + 1
                    } else {
                        we
                    },
                    s.len() as int,
                ),
                st,
                acc,
            )
        } else if w > stack_top(st) || stack_top(popped_stack(st, w)) == w {
            match sp_line_body(s, we, Seq::empty(), Seq::empty()) {
                Ok(res) => sp_lines(
                    s,
                    bump_within(p, res.1, s.len() as int),
                    next_stack(st, w),
                    acc + indent_marks(st, w) + res.0,
                ),
                Err(e) => Err(e),
            }
        } else {
            Err(LexerError::IndentationError(we as usize))
        }
    }
}

/// The indentation stack is well formed: every recorded width is positive
/// and the widths strictly increase from bottom to top.
pub open spec fn stack_ok(st: Seq<usize>) -> bool {
    (forall|i: int| 0 <= i < st.len() ==> st[i] > 0) && (forall|i: int, j: int|
        0 <= i < j < st.len() ==> st[i] < st[j])
}

/// The lexer owns the source characters, a cursor, the token output and the
/// indentation stack. Its invariant ties the output to the stack: the
/// Indent tokens emitted so far exceed the Dedent tokens by exactly the
/// depth of the stack.
pub struct Lexer {
    chars: Vec<char>,
    pos: usize,
    output: Vec<Lexeme>,
    stack: Vec<usize>,
}

impl Lexer {
    /// The source characters.
    pub closed spec fn source(&self) -> Seq<char> {
        self.chars@
    }

    /// The tokens produced so far.
    pub closed spec fn tokens(&self) -> Seq<Lexeme> {
        self.output@
    }

    /// The cursor position.
    pub closed spec fn position(&self) -> int {
        self.pos as int
    }

    /// The widths on the indentation stack.
    pub closed spec fn indent_stack(&self) -> Seq<usize> {
        self.stack@
    }

    pub closed spec fn wf(&self) -> bool {
        self.pos <= self.chars@.len() && stack_ok(self.stack@) && indent_count(self.output@)
            - dedent_count(self.output@) == self.stack@.len()
    }

    pub fn new(source: Vec<char>) -> (r: Lexer)
        ensures
            r.wf(),
            r.source() == source@,
            r.tokens() == Seq::<Lexeme>::empty(),
            r.position() == 0,
            r.indent_stack() == Seq::<usize>::empty(),
    {
        let r = Lexer { chars: source, pos: 0, output: Vec::new(), stack: Vec::new() };
        proof {
            assert(r.output@ =~= Seq::<Lexeme>::empty());
            assert(r.stack@ =~= Seq::<usize>::empty());
        }
        r
    }

    /// Hands the token sequence to the caller, by value.
    pub fn output(self) -> (r: Vec<Lexeme>)
        ensures
            r@ == self.tokens(),
    {
        self.output
    }

    /// Lexes one physical line starting at the cursor. A blank line (one
    /// whose terminator comes before any non-whitespace character) is
    /// skipped entirely, signalled as `Continue`, and leaves the
    /// indentation stack untouched. Otherwise the leading whitespace width
    /// is compared against the stack: a greater width pushes and emits one
    /// Indent, a smaller one pops and emits one Dedent per pop, and a width
    /// that matches no stack entry is an indentation error. The line's
    /// tokens follow, up to a line terminator outside any open bracket
    /// group, and a Newline token closes the line.
    #[verifier::rlimit(100)]
    fn lex_line(&mut self) -> (r: Result<(), LexerError>)
        requires
            old(self).wf(),
            old(self).position() < old(self).source().len(),
        ensures
            final(self).wf(),
            final(self).source() == old(self).source(),
            final(self).position() >= old(self).position(),
            r is Ok || r == Err::<(), LexerError>(LexerError::Continue) ==> final(self).position()
                > old(self).position(),
            r == Err::<(), LexerError>(LexerError::Continue) ==> final(self).output
                == old(self).output && final(self).stack == old(self).stack,
            r is Ok ==> final(self).output@.len() > 0 && final(self).output@.last() is Newline,
            r is Ok ==> newline_count(final(self).output@) == newline_count(old(self).output@)
                + 1,
            ({
                let s = old(self).source();
                let p0 = old(self).position();
                let we = ws_end(s, p0);
                let w = we - p0;
                let st = old(self).indent_stack();
                if is_blank_line(s, p0) {
                    r == Err::<(), LexerError>(LexerError::Continue) && final(self).position() == (
                    if we < s.len() {
                        we + 1
                    } else {
                        we
                    })
                } else {
                    !(r == Err::<(), LexerError>(LexerError::Continue)) && (if w > stack_top(st)
                        || stack_top(popped_stack(st, w)) == w {
                        final(self).indent_stack() == next_stack(st, w) && !(r matches Err(e) && e
                            is IndentationError) && (match sp_line_body(
                            s,
                            we,
                            Seq::empty(),
                            Seq::empty(),
                        ) {
                            Ok(res) => r is Ok && final(self).position() == res.1 && token_views(
                                final(self).output@,
                            ) == token_views(old(self).output@) + indent_marks(st, w) + res.0,
                            Err(e2) => r == Err::<(), LexerError>(e2),
                        })
                    } else {
                        r == Err::<(), LexerError>(LexerError::IndentationError(we as usize))
                            && final(self).indent_stack() == popped_stack(st, w)
                    })
                }
            }),
    {
        let n = self.chars.len();
        let mut indent: usize = 0;
        loop
            invariant
                self.chars == old(self).chars,
                self.output == old(self).output,
                self.stack == old(self).stack,
                n == self.chars@.len(),
                old(self).pos <= self.pos <= n,
                old(self).pos < n,
                self.wf(),
                indent == self.pos - old(self).pos,
                ws_end(self.chars@, self.pos as int) == ws_end(self.chars@, old(self).pos as int),
            ensures
                self.chars == old(self).chars,
                self.output == old(self).output,
                self.stack == old(self).stack,
                old(self).pos <= self.pos < n,
                self.wf(),
                indent == self.pos - old(self).pos,
                self.pos == ws_end(self.chars@, old(self).pos as int),
                !(self.chars@[self.pos as int] == ' ' || self.chars@[self.pos as int] == '\t'),
                !is_line_term(self.chars@[self.pos as int]),
            decreases n - self.pos,
        {
            if self.pos >= n {
                return Err(LexerError::Continue);
            }
            let c = self.chars[self.pos];
            if c == ' ' || c == '\t' {
                self.pos = self.pos + 1;
                indent = indent + 1;
            } else if line_term(c) {
                self.pos = self.pos + 1;
                return Err(LexerError::Continue);
            } else {
                break;
            }
        }
        proof {
            assert(!is_blank_line(self.chars@, old(self).pos as int));
        }
        let top: usize = if self.stack.len() == 0 {
            0
        } else {
            self.stack[self.stack.len() - 1]
        };
        if indent > top {
            let ghost o = self.output@;
            self.stack.push(indent);
            self.output.push(Lexeme::Indent);
            proof {
                lemma_counts_push(o, Lexeme::Indent);
                assert(token_views(self.output@) =~= token_views(o).push(LexemeView::Indent));
                assert(indent_marks(old(self).stack@, indent as int) =~= seq![
                    LexemeView::Indent,
                ]);
            }
        } else if indent < top {
            proof {
                assert(token_views(self.output@) =~= token_views(old(self).output@) + Seq::new(
                    0nat,
                    |i: int| LexemeView::Dedent,
                ));
            }
            while self.stack.len() > 0 && self.stack[self.stack.len() - 1] > indent
                invariant
                    self.chars == old(self).chars,
                    n == self.chars@.len(),
                    old(self).pos <= self.pos < n,
                    self.pos == ws_end(self.chars@, old(self).pos as int),
                    self.wf(),
                    popped_stack(old(self).stack@, indent as int) == popped_stack(
                        self.stack@,
                        indent as int,
                    ),
                    newline_count(self.output@) == newline_count(old(self).output@),
                    self.stack@.len() <= old(self).stack@.len(),
                    token_views(self.output@) == token_views(old(self).output@) + Seq::new(
                        (old(self).stack@.len() - self.stack@.len()) as nat,
                        |i: int| LexemeView::Dedent,
                    ),
                decreases self.stack@.len(),
            {
                let ghost o = self.output@;
                let ghost st_pre = self.stack@;
                let ghost k = (old(self).stack@.len() - self.stack@.len()) as nat;
                let _ = self.stack.pop();
                self.output.push(Lexeme::Dedent);
                proof {
                    lemma_counts_push(o, Lexeme::Dedent);
                    assert(self.stack@ =~= st_pre.drop_last());
                    assert(token_views(self.output@) =~= token_views(o).push(
                        LexemeView::Dedent,
                    ));
                    assert(Seq::new(k + 1, |i: int| LexemeView::Dedent) =~= Seq::new(
                        k,
                        |i: int| LexemeView::Dedent,
                    ).push(LexemeView::Dedent));
                }
            }
            let top2: usize = if self.stack.len() == 0 {
                0
            } else {
                self.stack[self.stack.len() - 1]
            };
            if top2 != indent {
                proof {
                    assert(self.stack@ == popped_stack(old(self).indent_stack(), indent as int));
                    assert(stack_top(popped_stack(old(self).indent_stack(), indent as int))
                        != indent);
                }
                return Err(LexerError::IndentationError(self.pos));
            }
        }
        proof {
            assert(self.stack@ == next_stack(
                old(self).stack@,
                ws_end(self.chars@, old(self).pos as int) - old(self).pos,
            ));
            if indent <= top {
                assert(indent_marks(old(self).stack@, indent as int) =~= Seq::new(
                    (old(self).stack@.len() - popped_stack(
                        old(self).stack@,
                        indent as int,
                    ).len()) as nat,
                    |i: int| LexemeView::Dedent,
                ));
            }
            assert(token_views(self.output@) =~= token_views(old(self).output@) + indent_marks(
                old(self).stack@,
                ws_end(self.chars@, old(self).pos as int) - old(self).pos,
            ) + Seq::<LexemeView>::empty());
        }
        let mut delim_stack: Vec<Delimiter> = Vec::new();
        let ghost mut acc: Seq<LexemeView> = Seq::empty();
        proof {
            assert(delim_stack@ =~= Seq::<Delimiter>::empty());
        }
        loop
            invariant_except_break
                sp_line_body(
                    self.chars@,
                    ws_end(self.chars@, old(self).pos as int),
                    Seq::empty(),
                    Seq::empty(),
                ) == sp_line_body(self.chars@, self.pos as int, delim_stack@, acc),
            invariant
                self.chars == old(self).chars,
                n == self.chars@.len(),
                old(self).pos <= self.pos <= n,
                old(self).pos < n,
                self.wf(),
                !is_blank_line(self.chars@, old(self).pos as int),
                ws_end(self.chars@, old(self).pos as int) - old(self).pos > stack_top(
                    old(self).stack@,
                ) || stack_top(
                    popped_stack(
                        old(self).stack@,
                        ws_end(self.chars@, old(self).pos as int) - old(self).pos,
                    ),
                ) == ws_end(self.chars@, old(self).pos as int) - old(self).pos,
                self.stack@ == next_stack(
                    old(self).stack@,
                    ws_end(self.chars@, old(self).pos as int) - old(self).pos,
                ),
                newline_count(self.output@) == newline_count(old(self).output@),
                token_views(self.output@) == token_views(old(self).output@) + indent_marks(
                    old(self).stack@,
                    ws_end(self.chars@, old(self).pos as int) - old(self).pos,
                ) + acc,
            ensures
                self.chars == old(self).chars,
                old(self).pos < self.pos <= n,
                self.wf(),
                self.stack@ == next_stack(
                    old(self).stack@,
                    ws_end(self.chars@, old(self).pos as int) - old(self).pos,
                ),
                newline_count(self.output@) == newline_count(old(self).output@),
                token_views(self.output@) == token_views(old(self).output@) + indent_marks(
                    old(self).stack@,
                    ws_end(self.chars@, old(self).pos as int) - old(self).pos,
                ) + acc,
                sp_line_body(
                    self.chars@,
                    ws_end(self.chars@, old(self).pos as int),
                    Seq::empty(),
                    Seq::empty(),
                ) == Ok::<(Seq<LexemeView>, int), LexerError>(
                    (acc.push(LexemeView::Newline), self.pos as int),
                ),
            decreases n - self.pos,
        {
            if self.pos >= n {
                proof {
                    assert(sp_line_body(self.chars@, self.pos as int, delim_stack@, acc) == Ok::<
                        (Seq<LexemeView>, int),
                        LexerError,
                    >((acc.push(LexemeView::Newline), self.pos as int)));
                }
                break;
            }
            let start = self.pos;
            let c = self.chars[start];
            if is_alphabetic_char(c) || c == '_' {
                let (res, p2) = lex_word(&self.chars, start);
                self.pos = p2;
                match res {
                    Ok(t) => {
                        let ghost o = self.output@;
                        let ghost ds = delim_stack@;
                        let ghost acc_pre = acc;
                        self.output.push(t);
                        proof {
                            lemma_counts_push(o, t);
                            assert(token_views(self.output@) =~= token_views(o).push(t@));
                            assert(sp_token(self.chars@, start as int, ds) == Ok::<
                                TokenStep,
                                LexerError,
                            >(TokenStep::Tok(t@, p2 as int, ds)));
                            assert(sp_line_body(self.chars@, start as int, ds, acc_pre)
                                == sp_line_body(self.chars@, p2 as int, ds, acc_pre.push(t@)));
                            acc = acc_pre.push(t@);
                        }
                    },
                    Err(e) => {
                        return Err(e);
                    },
                }
            } else if digit10(c) {
                let (res, p2) = lex_number(&self.chars, start);
                self.pos = p2;
                match res {
                    Ok(t) => {
                        let ghost o = self.output@;
                        let ghost ds = delim_stack@;
                        let ghost acc_pre = acc;
                        self.output.push(t);
                        proof {
                            lemma_counts_push(o, t);
                            assert(token_views(self.output@) =~= token_views(o).push(t@));
                            assert(sp_token(self.chars@, start as int, ds) == Ok::<
                                TokenStep,
                                LexerError,
                            >(TokenStep::Tok(t@, p2 as int, ds)));
                            assert(sp_line_body(self.chars@, start as int, ds, acc_pre)
                                == sp_line_body(self.chars@, p2 as int, ds, acc_pre.push(t@)));
                            acc = acc_pre.push(t@);
                        }
                    },
                    Err(e) => {
                        return Err(e);
                    },
                }
            } else if c == '.' {
                let (res, p2) = lex_leading_dot(&self.chars, start);
                self.pos = p2;
                match res {
                    Ok(t) => {
                        let ghost o = self.output@;
                        let ghost ds = delim_stack@;
                        let ghost acc_pre = acc;
                        self.output.push(t);
                        proof {
                            lemma_counts_push(o, t);
                            assert(token_views(self.output@) =~= token_views(o).push(t@));
                            assert(sp_token(self.chars@, start as int, ds) == Ok::<
                                TokenStep,
                                LexerError,
                            >(TokenStep::Tok(t@, p2 as int, ds)));
                            assert(sp_line_body(self.chars@, start as int, ds, acc_pre)
                                == sp_line_body(self.chars@, p2 as int, ds, acc_pre.push(t@)));
                            acc = acc_pre.push(t@);
                        }
                    },
                    Err(e) => {
                        return Err(e);
                    },
                }
            } else if c == '"' || c == '\'' {
                let (res, p2) = lex_str(
                    &self.chars,
                    start,
                    start + 1,
                    c,
                    Prefix::Ignore,
                    Prefix::Ignore,
                );
                self.pos = p2;
                match res {
                    Ok(t) => {
                        let ghost o = self.output@;
                        let ghost ds = delim_stack@;
                        let ghost acc_pre = acc;
                        self.output.push(t);
                        proof {
                            lemma_counts_push(o, t);
                            assert(token_views(self.output@) =~= token_views(o).push(t@));
                            assert(sp_token(self.chars@, start as int, ds) == Ok::<
                                TokenStep,
                                LexerError,
                            >(TokenStep::Tok(t@, p2 as int, ds)));
                            assert(sp_line_body(self.chars@, start as int, ds, acc_pre)
                                == sp_line_body(self.chars@, p2 as int, ds, acc_pre.push(t@)));
                            acc = acc_pre.push(t@);
                        }
                    },
                    Err(e) => {
                        return Err(e);
                    },
                }
            } else if Operator::is_operator_term(c) {
                let (res, p2) = lex_operator(&self.chars, start);
                self.pos = p2;
                match res {
                    Ok(t) => {
                        let ghost o = self.output@;
                        let ghost ds = delim_stack@;
                        let ghost acc_pre = acc;
                        self.output.push(t);
                        proof {
                            lemma_counts_push(o, t);
                            assert(token_views(self.output@) =~= token_views(o).push(t@));
                            assert(sp_token(self.chars@, start as int, ds) == Ok::<
                                TokenStep,
                                LexerError,
                            >(TokenStep::Tok(t@, p2 as int, ds)));
                            assert(sp_line_body(self.chars@, start as int, ds, acc_pre)
                                == sp_line_body(self.chars@, p2 as int, ds, acc_pre.push(t@)));
                            acc = acc_pre.push(t@);
                        }
                    },
                    Err(e) => {
                        return Err(e);
                    },
                }
            } else {
                match Delimiter::is_delimiter(c) {
                    Some(d) => {
                        self.pos = start + 1;
                        let ghost ds = delim_stack@;
                        match lex_delimiter(start, d, &mut delim_stack) {
                            Ok(t) => {
                                let ghost o = self.output@;
                                let ghost acc_pre = acc;
                                self.output.push(t);
                                proof {
                                    lemma_counts_push(o, t);
                                    assert(token_views(self.output@) =~= token_views(o).push(
                                        t@,
                                    ));
                                    assert(sp_token(self.chars@, start as int, ds) == Ok::<
                                        TokenStep,
                                        LexerError,
                                    >(TokenStep::Tok(t@, start + 1, delim_stack@)));
                                    assert(sp_line_body(self.chars@, start as int, ds, acc_pre)
                                        == sp_line_body(
                                        self.chars@,
                                        start + 1,
                                        delim_stack@,
                                        acc_pre.push(t@),
                                    ));
                                    acc = acc_pre.push(t@);
                                }
                            },
                            Err(e) => {
                                return Err(e);
                            },
                        }
                    },
                    None => {
                        if c == '#' {
                            self.pos = start + 1;
                            let ghost out_pre = self.output@;
                            let ghost ds = delim_stack@;
                            let ghost acc_pre = acc;
                            while self.pos < n && !line_term(self.chars[self.pos])
                                invariant
                                    self.chars == old(self).chars,
                                    n == self.chars@.len(),
                                    old(self).pos <= start < self.pos <= n,
                                    self.wf(),
                                    self.stack@ == next_stack(
                                        old(self).stack@,
                                        ws_end(self.chars@, old(self).pos as int) - old(self).pos,
                                    ),
                                    newline_count(self.output@) == newline_count(
                                        old(self).output@,
                                    ),
                                    self.output@ == out_pre,
                                    forall|j: int|
                                        start + 1 <= j < self.pos ==> !is_line_term(
                                            self.chars@[j],
                                        ),
                                decreases n - self.pos,
                            {
                                self.pos = self.pos + 1;
                            }
                            proof {
                                lemma_comment_end_eq(
                                    self.chars@,
                                    start + 1,
                                    self.pos as int,
                                );
                                assert(sp_token(self.chars@, start as int, ds) == Ok::<
                                    TokenStep,
                                    LexerError,
                                >(TokenStep::Skip(self.pos as int, ds)));
                                assert(sp_line_body(self.chars@, start as int, ds, acc_pre)
                                    == sp_line_body(
                                    self.chars@,
                                    self.pos as int,
                                    ds,
                                    acc_pre,
                                ));
                            }
                        } else if c == '\\' {
                            let (res, p2) = lex_escape(&self.chars, start);
                            self.pos = p2;
                            match res {
                                Ok(()) => {
                                    proof {
                                        assert(sp_token(
                                            self.chars@,
                                            start as int,
                                            delim_stack@,
                                        ) == Ok::<TokenStep, LexerError>(
                                            TokenStep::Skip(p2 as int, delim_stack@),
                                        ));
                                    }
                                },
                                Err(e) => {
                                    return Err(e);
                                },
                            }
                        } else if line_term(c) {
                            self.pos = start + 1;
                            if delim_stack.len() == 0 {
                                proof {
                                    assert(sp_token(self.chars@, start as int, delim_stack@)
                                        == Ok::<TokenStep, LexerError>(
                                        TokenStep::End(start + 1),
                                    ));
                                    assert(sp_line_body(
                                        self.chars@,
                                        start as int,
                                        delim_stack@,
                                        acc,
                                    ) == Ok::<(Seq<LexemeView>, int), LexerError>(
                                        (acc.push(LexemeView::Newline), start + 1),
                                    ));
                                }
                                break;
                            }
                            proof {
                                assert(sp_token(self.chars@, start as int, delim_stack@) == Ok::<
                                    TokenStep,
                                    LexerError,
                                >(TokenStep::Skip(start + 1, delim_stack@)));
                            }
                        } else {
                            self.pos = start + 1;
                            proof {
                                assert(sp_token(self.chars@, start as int, delim_stack@) == Ok::<
                                    TokenStep,
                                    LexerError,
                                >(TokenStep::Skip(start + 1, delim_stack@)));
                            }
                        }
                    },
                }
            }
        }
        let ghost o = self.output@;
        self.output.push(Lexeme::Newline);
        proof {
            lemma_counts_push(o, Lexeme::Newline);
            assert(token_views(self.output@) =~= token_views(o).push(LexemeView::Newline));
            assert(token_views(self.output@) =~= token_views(old(self).output@) + indent_marks(
                old(self).stack@,
                ws_end(self.chars@, old(self).pos as int) - old(self).pos,
            ) + acc.push(LexemeView::Newline));
        }
        Ok(())
    }

    /// Lexes the whole source buffer, line by line, until the input is
    /// consumed or a lex error is hit. The tokens produced are exactly the
    /// spec-level scan of the source: `sp_lines` over the characters, the
    /// cursor and the indentation stack.
    pub fn lex(&mut self) -> (r: Result<(), LexerError>)
        requires
            old(self).wf(),
        ensures
            final(self).wf(),
            final(self).source() == old(self).source(),
            final(self).position() >= old(self).position(),
            r is Ok ==> final(self).position() == final(self).source().len(),
            old(self).position() >= old(self).source().len() ==> r is Ok,
            r is Ok && old(self).tokens().len() == 0 ==> (final(self).tokens().len() == 0
                || final(self).tokens().last() is Newline),
            (match r {
                Ok(_) => sp_lines(
                    old(self).source(),
                    old(self).position(),
                    old(self).indent_stack(),
                    token_views(old(self).tokens()),
                ) == Ok::<Seq<LexemeView>, LexerError>(token_views(final(self).tokens())),
                Err(e) => sp_lines(
                    old(self).source(),
                    old(self).position(),
                    old(self).indent_stack(),
                    token_views(old(self).tokens()),
                ) == Err::<Seq<LexemeView>, LexerError>(e),
            }),
    {
        loop
            invariant
                self.wf(),
                self.chars@ == old(self).chars@,
                self.pos >= old(self).pos,
                old(self).output@.len() == 0 ==> (self.output@.len() == 0 || self.output@.last()
                    is Newline),
                sp_lines(
                    self.chars@,
                    old(self).pos as int,
                    old(self).stack@,
                    token_views(old(self).output@),
                ) == sp_lines(
                    self.chars@,
                    self.pos as int,
                    self.stack@,
                    token_views(self.output@),
                ),
            decreases self.chars@.len() - self.pos,
        {
            if self.pos >= self.chars.len() {
                return Ok(());
            }
            let ghost p_pre = self.pos as int;
            let ghost st_pre = self.stack@;
            let ghost tv_pre = token_views(self.output@);
            match self.lex_line() {
                Ok(()) => {
                    proof {
                        assert(sp_lines(self.chars@, p_pre, st_pre, tv_pre) == sp_lines(
                            self.chars@,
                            self.pos as int,
                            self.stack@,
                            token_views(self.output@),
                        ));
                    }
                },
                Err(e) => {
                    match e {
                        LexerError::Continue => {
                            proof {
                                assert(sp_lines(self.chars@, p_pre, st_pre, tv_pre) == sp_lines(
                                    self.chars@,
                                    self.pos as int,
                                    self.stack@,
                                    token_views(self.output@),
                                ));
                            }
                        },
                        _ => {
                            proof {
                                assert(sp_lines(self.chars@, p_pre, st_pre, tv_pre) == Err::<
                                    Seq<LexemeView>,
                                    LexerError,
                                >(e));
                            }
                            return Err(e);
                        },
                    }
                },
            }
        }
    }
}

/// Law: indentation balance. Whenever the indentation stack has returned to
/// empty — as after input whose lines end back at column zero — the Indent
/// tokens in the output are exactly as many as the Dedent tokens.
pub proof fn lemma_indentation_balance(l: &Lexer)
    requires
        l.wf(),
        l.indent_stack().len() == 0,
    ensures
        indent_count(l.tokens()) == dedent_count(l.tokens()),
{
}

/// The end of the run of numeric-literal characters starting at `i`.
pub open spec fn num_run_end(s: Seq<char>, i: int) -> int
    decreases s.len() - i,
{
    if i < s.len() && is_num_cont(s[i]) {
        num_run_end(s, i + 1)
    } else {
        i
    }
}

proof fn lemma_num_run_end_eq(s: Seq<char>, i: int, e: int)
    requires
        0 <= i <= e <= s.len(),
        forall|j: int| i <= j < e ==> is_num_cont(s[j]),
        e == s.len() || !is_num_cont(s[e]),
    ensures
        num_run_end(s, i) == e,
    decreases e - i,
{
    if i < e {
        lemma_num_run_end_eq(s, i + 1, e);
    }
}

/// The end of the run of base digits and separators starting at `i`.
pub open spec fn radix_run_end(s: Seq<char>, i: int, b: int) -> int
    decreases s.len() - i,
{
    if i < s.len() && (is_base_digit(s[i], b) || s[i] == '_') {
        radix_run_end(s, i + 1, b)
    } else {
        i
    }
}

proof fn lemma_radix_run_end_eq(s: Seq<char>, i: int, e: int, b: int)
    requires
        0 <= i <= e <= s.len(),
        forall|j: int| i <= j < e ==> (is_base_digit(s[j], b) || s[j] == '_'),
        e == s.len() || !(is_base_digit(s[e], b) || s[e] == '_'),
    ensures
        radix_run_end(s, i, b) == e,
    decreases e - i,
{
    if i < e {
        lemma_radix_run_end_eq(s, i + 1, e, b);
    }
}

/// A character that can continue a leading-dot literal.
pub open spec fn is_dot_cont(c: char) -> bool {
    is_digit(c) || c == 'e' || c == '+' || c == '-'
}

/// The end of the run of leading-dot literal characters starting at `i`.
pub open spec fn dot_run_end(s: Seq<char>, i: int) -> int
    decreases s.len() - i,
{
    if i < s.len() && is_dot_cont(s[i]) {
        dot_run_end(s, i + 1)
    } else {
        i
    }
}

proof fn lemma_dot_run_end_eq(s: Seq<char>, i: int, e: int)
    requires
        0 <= i <= e <= s.len(),
        forall|j: int| i <= j < e ==> is_dot_cont(s[j]),
        e == s.len() || !is_dot_cont(s[e]),
    ensures
        dot_run_end(s, i) == e,
    decreases e - i,
{
    if i < e {
        lemma_dot_run_end_eq(s, i + 1, e);
    }
}

/// The scan of a numeric literal with a non-zero leading digit, as a
/// function of the source: the token and the position after it, or the
/// error.
pub open spec fn integer_scan(s: Seq<char>, start: int) -> Result<(LexemeView, int), LexerError> {
    let end = num_run_end(s, start + 1);
    let lit = strip_seps(s.subrange(start, end));
    if lit.contains('.') || lit.contains('e') {
        if is_valid_float(lit) {
            Ok((LexemeView::Float(lit), end))
        } else {
            Err(LexerError::InvalidFloat(start as usize))
        }
    } else if all_digits(lit) && base_val(lit, 10) <= 0x7FFF_FFFF_FFFF_FFFF {
        Ok((LexemeView::Integer(base_val(lit, 10) as i64), end))
    } else {
        Err(LexerError::InvalidInteger(start as usize))
    }
}

/// The scan of what follows a leading zero.
pub open spec fn leading_zero_scan(s: Seq<char>, start: int) -> Result<
    (LexemeView, int),
    LexerError,
> {
    let end = num_run_end(s, start + 1);
    let lit = strip_seps(s.subrange(start + 1, end));
    if lit.len() == 0 || (forall|j: int| 0 <= j < lit.len() ==> lit[j] == '0') {
        Ok((LexemeView::Integer(0), end))
    } else if is_valid_float(lit) {
        Ok((LexemeView::Float(lit), end))
    } else {
        Err(LexerError::InvalidFloat(start as usize))
    }
}

/// The scan of a binary, octal or hexadecimal literal after its marker.
pub open spec fn radix_scan(s: Seq<char>, start: int, b: int) -> Result<
    (LexemeView, int),
    LexerError,
> {
    let end = radix_run_end(s, start + 2, b);
    let lit = strip_seps(s.subrange(start + 2, end));
    if end < s.len() && (char_alphanumeric(s[end]) || s[end] == '.') {
        Err(LexerError::InvalidInteger(start as usize))
    } else if base_val(lit, b) > 0x7FFF_FFFF_FFFF_FFFF {
        Err(LexerError::InvalidInteger(start as usize))
    } else {
        Ok((LexemeView::Integer(base_val(lit, b) as i64), end))
    }
}

/// The scan of a leading dot: the Access operator or a float literal.
pub open spec fn leading_dot_scan(s: Seq<char>, start: int) -> Result<
    (LexemeView, int),
    LexerError,
> {
    let end = dot_run_end(s, start + 1);
    let lit = s.subrange(start, end);
    if lit.len() == 1 {
        Ok((LexemeView::Operator(Operator::Access), end))
    } else if is_valid_float(lit) {
        Ok((LexemeView::Float(lit), end))
    } else {
        Err(LexerError::InvalidFloat(start as usize))
    }
}

/// The scan of any numeric literal: a leading zero followed by a base
/// marker selects the base scan, any other leading zero the leading-zero
/// scan, and a non-zero digit the decimal scan.
pub open spec fn number_scan(s: Seq<char>, start: int) -> Result<(LexemeView, int), LexerError> {
    if s[start] == '0' {
        if s.len() - start >= 2 {
            let c = s[start + 1];
            if c == 'b' || c == 'B' {
                radix_scan(s, start, 2)
            } else if c == 'o' || c == 'O' {
                radix_scan(s, start, 8)
            } else if c == 'x' || c == 'X' {
                radix_scan(s, start, 16)
            } else {
                leading_zero_scan(s, start)
            }
        } else {
            Ok((LexemeView::Integer(0), start + 1))
        }
    } else {
        integer_scan(s, start)
    }
}

/// The scan of a string or bytes literal whose opening quote stands just
/// before `pos`, as a token.
pub open spec fn string_lex(
    s: Seq<char>,
    start: usize,
    pos: int,
    quote: char,
    p1: Prefix,
    p2: Prefix,
) -> Result<(LexemeView, int), LexerError> {
    let triple = pos + 2 <= s.len() && s[pos] == quote && s[pos + 1] == quote;
    let body = if triple {
        pos + 2
    } else {
        pos
    };
    let is_raw = p1 == Prefix::Raw || p2 == Prefix::Raw;
    let is_bytes = p1 == Prefix::Bytes || p2 == Prefix::Bytes;
    match string_scan(s, body, quote, triple, is_raw, is_bytes, start, Seq::empty()) {
        Ok(res) => Ok(
            (
                if is_bytes {
                    LexemeView::Bytes(start, utf8_of_seq(res.0))
                } else {
                    LexemeView::Str(start, res.0)
                },
                res.1,
            ),
        ),
        Err(err) => Err(err),
    }
}

/// The scan of a word: a string prefix when a quote follows directly, else
/// a keyword or an identifier.
pub open spec fn word_scan(s: Seq<char>, start: int) -> Result<(LexemeView, int), LexerError> {
    let we = word_end(s, start + 1);
    let word = s.subrange(start, we);
    if we < s.len() && (s[we] == '"' || s[we] == '\'') {
        match Prefix::of_chars(word) {
            None => Err(LexerError::InvalidPrefix(start as usize)),
            Some(pp) => string_lex(s, start as usize, we + 1, s[we], pp.0, pp.1),
        }
    } else {
        match Keyword::of_chars(word) {
            Some(k) => Ok((LexemeView::Keyword(start as usize, k), we)),
            None => Ok((LexemeView::Identifier(start as usize, word), we)),
        }
    }
}

/// The views of a token sequence.
pub open spec fn token_views(s: Seq<Lexeme>) -> Seq<LexemeView> {
    s.map_values(|t: Lexeme| t@)
}

/// The end of a comment: the first line terminator at or after `i`, or the
/// end of the input.
pub open spec fn comment_end(s: Seq<char>, i: int) -> int
    decreases s.len() - i,
{
    if i < s.len() && !is_line_term(s[i]) {
        comment_end(s, i + 1)
    } else {
        i
    }
}

proof fn lemma_comment_end_eq(s: Seq<char>, i: int, e: int)
    requires
        0 <= i <= e <= s.len(),
        forall|j: int| i <= j < e ==> !is_line_term(s[j]),
        e == s.len() || is_line_term(s[e]),
    ensures
        comment_end(s, i) == e,
    decreases e - i,
{
    if i < e {
        lemma_comment_end_eq(s, i + 1, e);
    }
}

/// One step of the line scanner: a token together with the position after
/// it and the delimiter stack it leaves, a silent skip (whitespace inside
/// the line, comments, continuations, swallowed terminators), or the end
/// of the logical line.
pub enum TokenStep {
    Tok(LexemeView, int, Seq<Delimiter>),
    Skip(int, Seq<Delimiter>),
    End(int),
}

/// The dispatch of one scanning step at position `p` with the line-local
/// delimiter stack `dstack`, mirroring each scanner's own contract.
pub open spec fn sp_token(s: Seq<char>, p: int, dstack: Seq<Delimiter>) -> Result<
    TokenStep,
    LexerError,
> {
    if p < 0 || p >= s.len() {
        Ok(TokenStep::End(p))
    } else {
        let c = s[p];
        if char_alphabetic(c) || c == '_' {
            match word_scan(s, p) {
                Ok((t, q)) => Ok(TokenStep::Tok(t, q, dstack)),
                Err(e) => Err(e),
            }
        } else if is_digit(c) {
            match number_scan(s, p) {
                Ok((t, q)) => Ok(TokenStep::Tok(t, q, dstack)),
                Err(e) => Err(e),
            }
        } else if c == '.' {
            match leading_dot_scan(s, p) {
                Ok((t, q)) => Ok(TokenStep::Tok(t, q, dstack)),
                Err(e) => Err(e),
            }
        } else if c == '"' || c == '\'' {
            match string_lex(s, p as usize, p + 1, c, Prefix::Ignore, Prefix::Ignore) {
                Ok((t, q)) => Ok(TokenStep::Tok(t, q, dstack)),
                Err(e) => Err(e),
            }
        } else if Operator::term_spec(c) {
            match operator_scan(s, p) {
                Some((op, l)) => Ok(
                    TokenStep::Tok(
                        LexemeView::Operator(reclassify(op, s, p + l)),
                        p + l,
                        dstack,
                    ),
                ),
                None => Err(LexerError::InvalidOperator(p as usize)),
            }
        } else {
            match Delimiter::of_char(c) {
                Some(d) => if d.opening_spec() {
                    Ok(
                        TokenStep::Tok(
                            LexemeView::Delimiter(p as usize, d),
                            p + 1,
                            dstack.push(d),
                        ),
                    )
                } else if dstack.len() > 0 && dstack.last().partner() == d {
                    Ok(
                        TokenStep::Tok(
                            LexemeView::Delimiter(p as usize, d),
                            p + 1,
                            dstack.drop_last(),
                        ),
                    )
                } else {
                    Err(LexerError::MismatchedDelimiter(p as usize))
                },
                None => if c == '#' {
                    Ok(TokenStep::Skip(comment_end(s, p + 1), dstack))
                } else if c == '\\' {
                    if p + 1 >= s.len() {
                        Err(LexerError::Eof)
                    } else if is_line_term(s[p + 1]) {
                        Ok(TokenStep::Skip(p + 2, dstack))
                    } else {
                        Err(LexerError::InvalidEscape((p + 1) as usize))
                    }
                } else if is_line_term(c) {
                    if dstack.len() == 0 {
                        Ok(TokenStep::End(p + 1))
                    } else {
                        Ok(TokenStep::Skip(p + 1, dstack))
                    }
                } else {
                    Ok(TokenStep::Skip(p + 1, dstack))
                },
            }
        }
    }
}

/// The scan of the rest of a logical line from position `p`: tokens
/// accumulate in order onto `acc`, and the line closes with a Newline view
/// and the position after its terminator (or the end of the input).
pub open spec fn sp_line_body(
    s: Seq<char>,
    p: int,
    dstack: Seq<Delimiter>,
    acc: Seq<LexemeView>,
) -> Result<(Seq<LexemeView>, int), LexerError>
    decreases s.len() - p,
{
    match sp_token(s, p, dstack) {
        Err(e) => Err(e),
        Ok(TokenStep::End(q)) => Ok((acc.push(LexemeView::Newline), q)),
        Ok(TokenStep::Tok(t, q, d2)) => sp_line_body(
            s,
            bump_within(p, q, s.len() as int),
            d2,
            acc.push(t),
        ),
        Ok(TokenStep::Skip(q, d2)) => sp_line_body(s, bump_within(p, q, s.len() as int), d2, acc),
    }
}

/// The indentation markers a non-blank line of width `w` emits: one Indent
/// when it opens a level, else one Dedent per popped entry.
pub open spec fn indent_marks(st: Seq<usize>, w: int) -> Seq<LexemeView> {
    if w > stack_top(st) {
        seq![LexemeView::Indent]
    } else {
        Seq::new((st.len() - popped_stack(st, w).len()) as nat, |i: int| LexemeView::Dedent)
    }
}

/// The errors the lexer reports. `Continue` is the internal signal that a
/// blank line was skipped; `Eof` reports an unexpected end of input inside a
/// token or an open bracket group. The other variants carry the offset of
/// the offending source character.
#[derive(Clone, Copy, Debug, PartialEq, Eq, Structural)]
pub enum LexerError {
    Continue,
    Eof,
    IndentationError(usize),
    InvalidEscape(usize),
    InvalidHex(usize),
    InvalidFloat(usize),
    InvalidInteger(usize),
    InvalidOctal(usize),
    InvalidOperator(usize),
    InvalidPrefix(usize),
    InvalidUnicode16(usize),
    InvalidUnicode32(usize),
    MismatchedDelimiter(usize),
}

} // verus!
