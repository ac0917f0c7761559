//! A calculator over GF(2^32): it reads expressions, evaluates them and keeps a history.
use vstd::prelude::*;
use crate::field32::{
    create_number, field_mul, inverse, zero_inverse_message, poly_string, takousiki, MyNumber,
};

verus! {

/// White space as `char::is_whitespace` defines it (the Unicode White_Space property).
pub open spec fn is_space(c: char) -> bool {
    ||| '\t' <= c <= '\r'
    ||| c == ' '
    ||| c == '\u{85}'
    ||| c == '\u{a0}'
    ||| c == '\u{1680}'
    ||| '\u{2000}' <= c <= '\u{200a}'
    ||| c == '\u{2028}'
    ||| c == '\u{2029}'
    ||| c == '\u{202f}'
    ||| c == '\u{205f}'
    ||| c == '\u{3000}'
}

/// Start of the range `[lo, hi)` of `s` once leading white space is skipped.
pub open spec fn trim_lo(s: Seq<char>, lo: int, hi: int) -> int
    decreases hi - lo,
{
    if lo < hi && is_space(s[lo]) {
        trim_lo(s, lo + 1, hi)
    } else {
        lo
    }
}

/// End of the range `[lo, hi)` of `s` once trailing white space is dropped.
pub open spec fn trim_hi(s: Seq<char>, lo: int, hi: int) -> int
    decreases hi - lo,
{
    if lo < hi && is_space(s[hi - 1]) {
        trim_hi(s, lo, hi - 1)
    } else {
        hi
    }
}

/// The range `[lo, hi)` of `s` ends with the inverse operator "^-1".
pub open spec fn ends_with_inverse(s: Seq<char>, lo: int, hi: int) -> bool {
    hi - lo >= 3 && s[hi - 3] == '^' && s[hi - 2] == '-' && s[hi - 1] == '1'
}

/// End of the range `[lo, hi)` of `s` once every trailing "^-1" is removed.
pub open spec fn strip_inverse(s: Seq<char>, lo: int, hi: int) -> int
    decreases hi - lo,
{
    if ends_with_inverse(s, lo, hi) {
        strip_inverse(s, lo, hi - 3)
    } else {
        hi
    }
}

/// Number of occurrences of `c` in the range `[lo, hi)` of `s`.
pub open spec fn count_char(s: Seq<char>, c: char, lo: int, hi: int) -> nat
    decreases hi - lo,
{
    if hi <= lo {
        0
    } else {
        count_char(s, c, lo, hi - 1) + if s[hi - 1] == c {
            1nat
        } else {
            0nat
        }
    }
}

/// Index of the first `c` in the range `[lo, hi)` of `s`, or `hi` if there is none.
pub open spec fn find_char(s: Seq<char>, c: char, lo: int, hi: int) -> int
    decreases hi - lo,
{
    if lo >= hi {
        hi
    } else if s[lo] == c {
        lo
    } else {
        find_char(s, c, lo + 1, hi)
    }
}

pub open spec fn is_digit(c: char) -> bool {
    '0' <= c <= '9'
}

/// Every character of the range `[lo, hi)` of `s` is a decimal digit.
pub open spec fn all_digits(s: Seq<char>, lo: int, hi: int) -> bool {
    forall|i: int| lo <= i < hi ==> is_digit(#[trigger] s[i])
}

/// The number that the decimal digits in the range `[lo, hi)` of `s` denote.
pub open spec fn digits_value(s: Seq<char>, lo: int, hi: int) -> nat
    decreases hi - lo,
{
    if hi <= lo {
        0
    } else {
        digits_value(s, lo, hi - 1) * 10 + ((s[hi - 1] as nat) - ('0' as nat)) as nat
    }
}

/// Where the digits of a number in the range `[lo, hi)` of `s` begin: after a leading '+'.
pub open spec fn digits_start(s: Seq<char>, lo: int, hi: int) -> int {
    if lo < hi && s[lo] == '+' {
        lo + 1
    } else {
        lo
    }
}

/// The `u32` that the range `[lo, hi)` of `s` denotes as `u32::from_str` reads it:
/// an optional '+', then one or more decimal digits, with a value below 2^32.
pub open spec fn parse_u32(s: Seq<char>, lo: int, hi: int) -> Option<u32> {
    let start = digits_start(s, lo, hi);
    if start < hi && all_digits(s, start, hi) && digits_value(s, start, hi) <= u32::MAX {
        Some(digits_value(s, start, hi) as u32)
    } else {
        None
    }
}

/// An operand: the trimmed range `[lo, hi)` of `s` read as a decimal `u32`, or the
/// message that rejects it.
pub open spec fn operand(s: Seq<char>, lo: int, hi: int) -> Result<u32, Seq<char>> {
    let a = trim_lo(s, lo, hi);
    let b = trim_hi(s, a, hi);
    if a == b {
        Err("Empty value"@)
    } else {
        match parse_u32(s, a, b) {
            Some(v) => Ok(v),
            None => Err("Invalid decimal value: "@ + s.subrange(a, b)),
        }
    }
}

/// An expression of the calculator.
pub enum Expression {
    /// `a^-1`
    Inverse(u32),
    /// `a * b`
    Product(u32, u32),
    /// `a + b`: addition in GF(2^32), the bitwise XOR
    Sum(u32, u32),
    /// `a`
    Value(u32),
}

/// A binary expression over the range `[lo, hi)` of `s`, split at its one `op`.
pub open spec fn binary(s: Seq<char>, lo: int, hi: int, op: char, name: Seq<char>) -> Result<
    (u32, u32),
    Seq<char>,
> {
    if count_char(s, op, lo, hi) != 1 {
        Err("Invalid "@ + name + " expression"@)
    } else {
        let m = find_char(s, op, lo, hi);
        match operand(s, lo, m) {
            Err(e) => Err(e),
            Ok(a) => match operand(s, m + 1, hi) {
                Err(e) => Err(e),
                Ok(b) => Ok((a, b)),
            },
        }
    }
}

/// The expression that the text `s` denotes, or the message that rejects it. The
/// inverse operator is tried first, then `*`, then `+`, then a single value.
pub open spec fn parse_expression_spec(s: Seq<char>) -> Result<Expression, Seq<char>> {
    let lo = trim_lo(s, 0, s.len() as int);
    let hi = trim_hi(s, lo, s.len() as int);
    if ends_with_inverse(s, lo, hi) {
        match operand(s, lo, strip_inverse(s, lo, hi)) {
            Err(e) => Err(e),
            Ok(v) => Ok(Expression::Inverse(v)),
        }
    } else if count_char(s, '*', lo, hi) > 0 {
        match binary(s, lo, hi, '*', "multiplication"@) {
            Err(e) => Err(e),
            Ok((a, b)) => Ok(Expression::Product(a, b)),
        }
    } else if count_char(s, '+', lo, hi) > 0 {
        match binary(s, lo, hi, '+', "addition"@) {
            Err(e) => Err(e),
            Ok((a, b)) => Ok(Expression::Sum(a, b)),
        }
    } else {
        match operand(s, lo, hi) {
            Err(e) => Err(e),
            Ok(v) => Ok(Expression::Value(v)),
        }
    }
}

/// `r` carries the same value or message as `s`.
pub open spec fn same_result<T>(r: Result<T, String>, s: Result<T, Seq<char>>) -> bool {
    match r {
        Ok(v) => s == Ok::<T, Seq<char>>(v),
        Err(e) => s == Err::<T, Seq<char>>(e@),
    }
}

fn chars_of(text: &str) -> (v: Vec<char>)
    ensures
        v@ == text@,
{
    let n = text.unicode_len();
    let mut v: Vec<char> = Vec::new();
    for i in 0..n
        invariant
            n == text@.len(),
            v@ == text@.subrange(0, i as int),
    {
        v.push(text.get_char(i));
        assert(v@ =~= text@.subrange(0, i + 1));
    }
    assert(v@ =~= text@);
    v
}

fn space(c: char) -> (r: bool)
    ensures
        r == is_space(c),
{
    ('\t' <= c && c <= '\r') || c == ' ' || c == '\u{85}' || c == '\u{a0}' || c == '\u{1680}'
        || ('\u{2000}' <= c && c <= '\u{200a}') || c == '\u{2028}' || c == '\u{2029}' || c
        == '\u{202f}' || c == '\u{205f}' || c == '\u{3000}'
}

fn skip_space(s: &Vec<char>, lo: usize, hi: usize) -> (r: usize)
    requires
        lo <= hi <= s@.len(),
    ensures
        r == trim_lo(s@, lo as int, hi as int),
        lo <= r <= hi,
    decreases hi - lo,
{
    if lo < hi && space(s[lo]) {
        skip_space(s, lo + 1, hi)
    } else {
        lo
    }
}

fn drop_space(s: &Vec<char>, lo: usize, hi: usize) -> (r: usize)
    requires
        lo <= hi <= s@.len(),
    ensures
        r == trim_hi(s@, lo as int, hi as int),
        lo <= r <= hi,
    decreases hi - lo,
{
    if lo < hi && space(s[hi - 1]) {
        drop_space(s, lo, hi - 1)
    } else {
        hi
    }
}

fn has_inverse_suffix(s: &Vec<char>, lo: usize, hi: usize) -> (r: bool)
    requires
        lo <= hi <= s@.len(),
    ensures
        r == ends_with_inverse(s@, lo as int, hi as int),
{
    hi - lo >= 3 && s[hi - 3] == '^' && s[hi - 2] == '-' && s[hi - 1] == '1'
}

fn strip_suffixes(s: &Vec<char>, lo: usize, hi: usize) -> (r: usize)
    requires
        lo <= hi <= s@.len(),
    ensures
        r == strip_inverse(s@, lo as int, hi as int),
        lo <= r <= hi,
    decreases hi - lo,
{
    if has_inverse_suffix(s, lo, hi) {
        strip_suffixes(s, lo, hi - 3)
    } else {
        hi
    }
}

fn count(s: &Vec<char>, c: char, lo: usize, hi: usize) -> (r: usize)
    requires
        lo <= hi <= s@.len(),
    ensures
        r == count_char(s@, c, lo as int, hi as int),
        r <= hi - lo,
{
    let mut n: usize = 0;
    let mut i: usize = lo;
    while i < hi
        invariant
            lo <= i <= hi <= s@.len(),
            n == count_char(s@, c, lo as int, i as int),
            n <= i - lo,
        decreases hi - i,
    {
        if s[i] == c {
            n = n + 1;
        }
        i = i + 1;
    }
    n
}

fn find(s: &Vec<char>, c: char, lo: usize, hi: usize) -> (r: usize)
    requires
        lo <= hi <= s@.len(),
    ensures
        r == find_char(s@, c, lo as int, hi as int),
        lo <= r <= hi,
    decreases hi - lo,
{
    if lo >= hi {
        hi
    } else if s[lo] == c {
        lo
    } else {
        find(s, c, lo + 1, hi)
    }
}

proof fn lemma_digits_monotone(s: Seq<char>, lo: int, k: int, hi: int)
    requires
        lo <= k <= hi,
        all_digits(s, lo, hi),
    ensures
        digits_value(s, lo, k) <= digits_value(s, lo, hi),
    decreases hi - k,
{
    if k < hi {
        lemma_digits_monotone(s, lo, k, hi - 1);
    }
}

proof fn lemma_absent_count(s: Seq<char>, c: char, lo: int, hi: int)
    requires
        forall|i: int| lo <= i < hi ==> s[i] != c,
    ensures
        count_char(s, c, lo, hi) == 0,
    decreases hi - lo,
{
    if hi > lo {
        lemma_absent_count(s, c, lo, hi - 1);
    }
}

proof fn lemma_find_counts(s: Seq<char>, c: char, lo: int, hi: int)
    requires
        count_char(s, c, lo, hi) > 0,
    ensures
        find_char(s, c, lo, hi) < hi,
    decreases hi - lo,
{
    if lo < hi && s[lo] != c {
        assert(find_char(s, c, lo, hi) == find_char(s, c, lo + 1, hi));
        if find_char(s, c, lo + 1, hi) >= hi {
            lemma_find_absent(s, c, lo + 1, hi);
            assert forall|i: int| lo <= i < hi implies s[i] != c by {
                if i > lo {
                    assert(s[i] != c);
                }
            }
            lemma_absent_count(s, c, lo, hi);
        }
    } else if lo >= hi {
        lemma_absent_count(s, c, lo, hi);
    }
}

proof fn lemma_find_absent(s: Seq<char>, c: char, lo: int, hi: int)
    requires
        find_char(s, c, lo, hi) >= hi,
    ensures
        forall|i: int| lo <= i < hi ==> s[i] != c,
    decreases hi - lo,
{
    if lo < hi {
        lemma_find_absent(s, c, lo + 1, hi);
    }
}

fn parse_number(s: &Vec<char>, lo: usize, hi: usize) -> (r: Option<u32>)
    requires
        lo <= hi <= s@.len(),
    ensures
        r == parse_u32(s@, lo as int, hi as int),
{
    let start = if lo < hi && s[lo] == '+' {
        lo + 1
    } else {
        lo
    };
    assert(start as int == digits_start(s@, lo as int, hi as int));
    if start >= hi {
        return None;
    }
    let mut i: usize = start;
    while i < hi
        invariant
            start <= i <= hi <= s@.len(),
            start == digits_start(s@, lo as int, hi as int),
            all_digits(s@, start as int, i as int),
        decreases hi - i,
    {
        if !('0' <= s[i] && s[i] <= '9') {
            assert(!is_digit(s@[i as int]));
            assert(!all_digits(s@, start as int, hi as int));
            return None;
        }
        i = i + 1;
    }
    let mut value: u64 = 0;
    let mut j: usize = start;
    while j < hi
        invariant
            start <= j <= hi <= s@.len(),
            start == digits_start(s@, lo as int, hi as int),
            all_digits(s@, start as int, hi as int),
            value == digits_value(s@, start as int, j as int),
            value <= u32::MAX,
        decreases hi - j,
    {
        assert(is_digit(s@[j as int]));
        let d = (s[j] as u32 - '0' as u32) as u64;
        assert(d == (s@[j as int] as nat) - ('0' as nat));
        value = value * 10 + d;
        j = j + 1;
        assert(value == digits_value(s@, start as int, j as int));
        if value > u32::MAX as u64 {
            proof {
                lemma_digits_monotone(s@, start as int, j as int, hi as int);
                assert(digits_value(s@, start as int, hi as int) > u32::MAX);
            }
            return None;
        }
    }
    Some(value as u32)
}

fn parse_operand(text: &str, s: &Vec<char>, lo: usize, hi: usize) -> (r: Result<u32, String>)
    requires
        s@ == text@,
        lo <= hi <= s@.len(),
    ensures
        same_result(r, operand(s@, lo as int, hi as int)),
{
    let a = skip_space(s, lo, hi);
    let b = drop_space(s, a, hi);
    if a == b {
        return Err(String::from_str("Empty value"));
    }
    match parse_number(s, a, b) {
        Some(v) => Ok(v),
        None => {
            let mut msg = String::from_str("Invalid decimal value: ");
            msg.append(text.substring_char(a, b));
            Err(msg)
        },
    }
}

fn parse_binary(text: &str, s: &Vec<char>, lo: usize, hi: usize, op: char, name: &str) -> (r:
    Result<(u32, u32), String>)
    requires
        s@ == text@,
        lo <= hi <= s@.len(),
    ensures
        same_result(r, binary(s@, lo as int, hi as int, op, name@)),
{
    if count(s, op, lo, hi) != 1 {
        let mut msg = String::from_str("Invalid ");
        msg.append(name);
        msg.append(" expression");
        return Err(msg);
    }
    let m = find(s, op, lo, hi);
    proof {
        lemma_find_counts(s@, op, lo as int, hi as int);
    }
    let a = match parse_operand(text, s, lo, m) {
        Ok(a) => a,
        Err(e) => return Err(e),
    };
    let b = match parse_operand(text, s, m + 1, hi) {
        Ok(b) => b,
        Err(e) => return Err(e),
    };
    Ok((a, b))
}

/// Reads a calculator expression: `a^-1`, `a * b`, `a + b` or `a`, with decimal operands.
pub fn parse_expression(text: &str) -> (r: Result<Expression, String>)
    ensures
        same_result(r, parse_expression_spec(text@)),
{
    let s = chars_of(text);
    let n = s.len();
    let lo = skip_space(&s, 0, n);
    let hi = drop_space(&s, lo, n);
    if has_inverse_suffix(&s, lo, hi) {
        let end = strip_suffixes(&s, lo, hi);
        match parse_operand(text, &s, lo, end) {
            Ok(v) => Ok(Expression::Inverse(v)),
            Err(e) => Err(e),
        }
    } else if count(&s, '*', lo, hi) > 0 {
        match parse_binary(text, &s, lo, hi, '*', "multiplication") {
            Ok((a, b)) => Ok(Expression::Product(a, b)),
            Err(e) => Err(e),
        }
    } else if count(&s, '+', lo, hi) > 0 {
        match parse_binary(text, &s, lo, hi, '+', "addition") {
            Ok((a, b)) => Ok(Expression::Sum(a, b)),
            Err(e) => Err(e),
        }
    } else {
        match parse_operand(text, &s, lo, hi) {
            Ok(v) => Ok(Expression::Value(v)),
            Err(e) => Err(e),
        }
    }
}

/// The character of the digit `d` in base 16 (upper case), or in base 10 when `d < 10`.
pub open spec fn digit_char(d: nat) -> char {
    if d < 10 {
        (('0' as nat) + d) as char
    } else {
        (('A' as nat) + d - 10) as char
    }
}

/// The decimal digits of `n`, most significant first.
pub open spec fn decimal(n: nat) -> Seq<char>
    decreases n,
{
    if n < 10 {
        seq![digit_char(n)]
    } else {
        decimal(n / 10).push(digit_char(n % 10))
    }
}

/// The `k` lowest hexadecimal digits of `n`, most significant first.
pub open spec fn hex_digits(n: nat, k: nat) -> Seq<char>
    decreases k,
{
    if k == 0 {
        Seq::empty()
    } else {
        hex_digits(n / 16, (k - 1) as nat).push(digit_char(n % 16))
    }
}

/// How a calculator shows a value: "v (0xHHHHHHHH, polynomial)".
pub open spec fn display(v: u32) -> Seq<char> {
    decimal(v as nat) + seq![' ', '(', '0', 'x'] + hex_digits(v as nat, 8) + seq![',', ' ']
        + poly_string(v) + seq![')']
}

/// The step "v = polynomial".
pub open spec fn value_step(v: u32) -> Seq<char> {
    decimal(v as nat) + seq![' ', '=', ' '] + poly_string(v)
}

/// The step "(a) op (b) = result".
pub open spec fn binary_step(a: u32, op: char, b: u32, x: u32) -> Seq<char> {
    seq!['('] + poly_string(a) + seq![')', ' ', op, ' ', '('] + poly_string(b) + seq![
        ')',
        ' ',
        '=',
        ' ',
    ] + poly_string(x)
}

/// `x` is the value of the expression `e`.
pub open spec fn evaluates_to(e: Expression, x: u32) -> bool {
    match e {
        Expression::Inverse(v) => field_mul(v, x) == 1,
        Expression::Product(a, b) => x == field_mul(a, b),
        Expression::Sum(a, b) => x == a ^ b,
        Expression::Value(v) => x == v,
    }
}

/// The steps shown for the expression `e` whose value is `x`.
pub open spec fn steps_of(e: Expression, x: u32) -> Seq<Seq<char>> {
    match e {
        Expression::Inverse(v) => seq![
            value_step(v),
            poly_string(v) + seq!['^', '-', '1', ' ', '=', ' '] + poly_string(x),
        ],
        Expression::Product(a, b) => seq![value_step(a), value_step(b), binary_step(a, '*', b, x)],
        Expression::Sum(a, b) => seq![value_step(a), value_step(b), binary_step(a, '+', b, x)],
        Expression::Value(v) => seq![value_step(v)],
    }
}

/// The views of a list of strings.
pub open spec fn views(v: Seq<String>) -> Seq<Seq<char>> {
    v.map_values(|s: String| s@)
}

fn digit_str(d: u32) -> (r: &'static str)
    requires
        d < 16,
    ensures
        r@ == seq![digit_char(d as nat)],
{
    proof {
        reveal_strlit("0");
        reveal_strlit("1");
        reveal_strlit("2");
        reveal_strlit("3");
        reveal_strlit("4");
        reveal_strlit("5");
        reveal_strlit("6");
        reveal_strlit("7");
        reveal_strlit("8");
        reveal_strlit("9");
        reveal_strlit("A");
        reveal_strlit("B");
        reveal_strlit("C");
        reveal_strlit("D");
        reveal_strlit("E");
        reveal_strlit("F");
    }
    match d {
        0 => "0",
        1 => "1",
        2 => "2",
        3 => "3",
        4 => "4",
        5 => "5",
        6 => "6",
        7 => "7",
        8 => "8",
        9 => "9",
        10 => "A",
        11 => "B",
        12 => "C",
        13 => "D",
        14 => "E",
        _ => "F",
    }
}

/// The decimal digits of `n`.
fn to_decimal(n: u32) -> (r: String)
    ensures
        r@ == decimal(n as nat),
    decreases n,
{
    if n < 10 {
        String::from_str(digit_str(n))
    } else {
        let mut r = to_decimal(n / 10);
        r.append(digit_str(n % 10));
        r
    }
}

/// The `k` lowest hexadecimal digits of `n`.
fn to_hex(n: u32, k: u32) -> (r: String)
    ensures
        r@ == hex_digits(n as nat, k as nat),
    decreases k,
{
    if k == 0 {
        String::new()
    } else {
        let mut r = to_hex(n / 16, k - 1);
        r.append(digit_str(n % 16));
        r
    }
}

fn value_line(v: u32) -> (r: String)
    ensures
        r@ == value_step(v),
{
    let mut r = to_decimal(v);
    r.append(" = ");
    r.append(takousiki(create_number(v)).as_str());
    proof {
        reveal_strlit(" = ");
    }
    assert(r@ =~= value_step(v));
    r
}

fn binary_line(a: u32, op: &str, b: u32, x: u32) -> (r: String)
    requires
        op@.len() == 1,
    ensures
        r@ == binary_step(a, op@[0], b, x),
{
    let mut r = String::from_str("(");
    r.append(takousiki(create_number(a)).as_str());
    r.append(") ");
    r.append(op);
    r.append(" (");
    r.append(takousiki(create_number(b)).as_str());
    r.append(") = ");
    r.append(takousiki(create_number(x)).as_str());
    proof {
        reveal_strlit("(");
        reveal_strlit(") ");
        reveal_strlit(" (");
        reveal_strlit(") = ");
        assert(op@ =~= seq![op@[0]]);
    }
    assert(r@ =~= binary_step(a, op@[0], b, x));
    r
}

/// Evaluates an expression, with the steps that show how its value comes about.
pub fn evaluate(e: Expression) -> (r: Result<(MyNumber, Vec<String>), String>)
    ensures
        r matches Ok((x, steps)) ==> evaluates_to(e, x.value) && views(steps@) == steps_of(
            e,
            x.value,
        ),
        r is Err <==> e == Expression::Inverse(0),
        r matches Err(m) ==> m@ == zero_inverse_message(),
{
    let mut steps: Vec<String> = Vec::new();
    match e {
        Expression::Inverse(v) => {
            let num = create_number(v);
            steps.push(value_line(v));
            let result = match inverse(num) {
                Ok(x) => x,
                Err(m) => return Err(m),
            };
            let mut line = takousiki(num);
            line.append("^-1 = ");
            line.append(takousiki(result).as_str());
            proof {
                reveal_strlit("^-1 = ");
            }
            assert(line@ =~= poly_string(v) + seq!['^', '-', '1', ' ', '=', ' '] + poly_string(
                result.value,
            ));
            steps.push(line);
            assert(views(steps@) =~= steps_of(e, result.value));
            Ok((result, steps))
        },
        Expression::Product(a, b) => {
            let result = create_number(a) * create_number(b);
            steps.push(value_line(a));
            steps.push(value_line(b));
            proof {
                reveal_strlit("*");
            }
            steps.push(binary_line(a, "*", b, result.value));
            assert(views(steps@) =~= steps_of(e, result.value));
            Ok((result, steps))
        },
        Expression::Sum(a, b) => {
            let result = create_number(a ^ b);
            steps.push(value_line(a));
            steps.push(value_line(b));
            proof {
                reveal_strlit("+");
            }
            steps.push(binary_line(a, "+", b, result.value));
            assert(views(steps@) =~= steps_of(e, result.value));
            Ok((result, steps))
        },
        Expression::Value(v) => {
            steps.push(value_line(v));
            assert(views(steps@) =~= steps_of(e, v));
            Ok((create_number(v), steps))
        },
    }
}

/// The lines that a successful calculation adds to the history: the input, each step
/// indented by two spaces, the result, and an empty line.
pub open spec fn history_lines(input: Seq<char>, steps: Seq<Seq<char>>, x: u32) -> Seq<Seq<char>> {
    seq!["Input: "@ + input] + steps.map_values(|t: Seq<char>| seq![' ', ' '] + t) + seq![
        "Result: "@ + display(x),
        Seq::empty(),
    ]
}

/// What may come of the text `text`: the message that rejects it, or a value of the
/// expression it denotes; the inverse of zero fails with the message of `inverse`.
pub open spec fn outcome_allowed(text: Seq<char>, o: Result<(u32, Seq<Seq<char>>), Seq<char>>) -> bool {
    match parse_expression_spec(text) {
        Err(m) => o == Err::<(u32, Seq<Seq<char>>), Seq<char>>(m),
        Ok(e) => match o {
            Ok((x, steps)) => evaluates_to(e, x) && steps == steps_of(e, x),
            Err(m) => e == Expression::Inverse(0) && m == zero_inverse_message(),
        },
    }
}

/// A calculator over GF(2^32) that keeps its input line, its last result and a history.
pub struct Calculator {
    pub input: String,
    pub result: String,
    pub history: Vec<String>,
}

impl Calculator {
    /// An empty input, the result "0" and no history.
    pub fn new() -> (r: Self)
        ensures
            r.input@.len() == 0,
            r.result@ == seq!['0'],
            r.history@.len() == 0,
    {
        proof {
            reveal_strlit("0");
        }
        Calculator { input: String::new(), result: String::from_str("0"), history: Vec::new() }
    }

    /// Appends `s` to the input line.
    pub fn push_input(&mut self, s: &str)
        ensures
            final(self).input@ == old(self).input@ + s@,
            final(self).result == old(self).result,
            final(self).history == old(self).history,
    {
        self.input.append(s);
    }

    /// Empties the input line and sets the result back to "0".
    pub fn clear(&mut self)
        ensures
            final(self).input@.len() == 0,
            final(self).result@ == seq!['0'],
            final(self).history == old(self).history,
    {
        proof {
            reveal_strlit("0");
        }
        self.input = String::new();
        self.result = String::from_str("0");
    }

    /// Reads a decimal operand: surrounding white space is ignored.
    pub fn parse_hex(&self, s: &str) -> (r: Result<u32, String>)
        ensures
            same_result(r, operand(s@, 0, s@.len() as int)),
    {
        let chars = chars_of(s);
        parse_operand(s, &chars, 0, chars.len())
    }

    /// Reads and evaluates an expression, with the steps of the evaluation.
    pub fn parse_and_evaluate_with_steps(&self, expr: &str) -> (r: Result<(MyNumber, Vec<String>), String>)
        ensures
            outcome_allowed(
                expr@,
                match r {
                    Ok((x, steps)) => Ok((x.value, views(steps@))),
                    Err(m) => Err(m@),
                },
            ),
            parse_expression_spec(expr@) matches Ok(e) ==> (r is Err <==> e == Expression::Inverse(
                0,
            )),
    {
        match parse_expression(expr) {
            Ok(e) => evaluate(e),
            Err(m) => Err(m),
        }
    }

    /// Evaluates the input line: on success the result shows the value and the history
    /// grows by the input, the steps and the result; on failure the result shows the error.
    pub fn calculate(&mut self)
        ensures
            final(self).input == old(self).input,
            exists|o: Result<(u32, Seq<Seq<char>>), Seq<char>>|
                #[trigger] outcome_allowed(old(self).input@, o) && match o {
                    Ok((x, steps)) => final(self).result@ == display(x) && views(
                        final(self).history@,
                    ) == views(old(self).history@) + history_lines(old(self).input@, steps, x),
                    Err(m) => final(self).result@ == "Error: "@ + m && final(self).history
                        == old(self).history,
                },
    {
        proof {
            reveal_strlit("Input: ");
            reveal_strlit("Result: ");
            reveal_strlit("Error: ");
            reveal_strlit("  ");
            reveal_strlit(" (0x");
            reveal_strlit(", ");
            reveal_strlit(")");
        }
        let ghost inp = self.input@;
        let outcome = self.parse_and_evaluate_with_steps(self.input.as_str());
        match outcome {
            Ok((x, steps)) => {
                let v = x.value;
                let mut shown = to_decimal(v);
                shown.append(" (0x");
                shown.append(to_hex(v, 8).as_str());
                shown.append(", ");
                shown.append(takousiki(x).as_str());
                shown.append(")");
                assert(shown@ =~= display(v));
                let ghost before = views(self.history@);
                let mut line = String::from_str("Input: ");
                line.append(self.input.as_str());
                self.history.push(line);
                let ghost prefix = before + seq!["Input: "@ + inp];
                assert(views(self.history@) =~= prefix);
                let mut i: usize = 0;
                while i < steps.len()
                    invariant
                        0 <= i <= steps@.len(),
                        self.input@ == inp,
                        self.input == old(self).input,
                        views(self.history@) =~= prefix + views(steps@).subrange(
                            0,
                            i as int,
                        ).map_values(|t: Seq<char>| seq![' ', ' '] + t),
                    decreases steps@.len() - i,
                {
                    let mut line = String::from_str("  ");
                    line.append(steps[i].as_str());
                    proof {
                        reveal_strlit("  ");
                        assert("  "@ =~= seq![' ', ' ']);
                        assert(line@ =~= seq![' ', ' '] + steps@[i as int]@);
                    }
                    let ghost h = self.history@;
                    self.history.push(line);
                    assert(views(self.history@) =~= views(h).push(line@));
                    i = i + 1;
                    assert(views(steps@).subrange(0, i as int).map_values(
                        |t: Seq<char>| seq![' ', ' '] + t,
                    ) =~= views(steps@).subrange(0, i - 1).map_values(
                        |t: Seq<char>| seq![' ', ' '] + t,
                    ).push(seq![' ', ' '] + steps@[i - 1]@));
                }
                assert(views(steps@).subrange(0, steps@.len() as int) =~= views(steps@));
                let mut last = String::from_str("Result: ");
                last.append(shown.as_str());
                let ghost h1 = self.history@;
                self.history.push(last);
                assert(views(self.history@) =~= views(h1).push(last@));
                let ghost h2 = self.history@;
                let empty = String::new();
                self.history.push(empty);
                assert(views(self.history@) =~= views(h2).push(Seq::empty()));
                self.result = shown;
                let ghost o = Ok::<(u32, Seq<Seq<char>>), Seq<char>>((v, views(steps@)));
                assert(views(self.history@) =~= before + history_lines(inp, views(steps@), v));
                assert(outcome_allowed(inp, o));
            },
            Err(m) => {
                let mut shown = String::from_str("Error: ");
                shown.append(m.as_str());
                self.result = shown;
                let ghost o = Err::<(u32, Seq<Seq<char>>), Seq<char>>(m@);
                assert(outcome_allowed(inp, o));
            },
        }
    }
}

} // verus!
