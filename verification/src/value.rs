//! Typed cell values and the inference policy that turns raw cell text into
//! them: a cell that reads as a decimal number literal becomes a fixed-point
//! `Number`, anything else becomes `Utf8` text.
//!
//! Numbers are held in fixed point: the mantissa counts millionths, so one
//! whole unit is `NUMBER_SCALE` mantissa units. A number literal is an
//! optional sign, up to `MAX_INT_DIGITS` integer digits, and optionally a
//! point followed by up to `MAX_FRAC_DIGITS` fraction digits, with at least
//! one digit overall.
use core::cmp::Ordering;
use vstd::prelude::*;

use crate::text::{
    all_digits, digit_val, digits_val, first_index_of, is_digit, lemma_digits_val_bound,
    lemma_first_index_of, lemma_first_index_of_at, ten_pow,
};

verus! {

/// The inferred type of a column.
#[derive(Clone, Copy, Debug, PartialEq, Eq, Structural)]
pub enum DataType {
    Number,
    Utf8,
    Null,
}

/// A typed cell value. A `Number` holds a fixed-point mantissa in millionths.
#[derive(Debug)]
pub enum AnyValue {
    Number(i64),
    Utf8(String),
    Null,
}

/// Mantissa units in one whole number unit.
pub const NUMBER_SCALE: i64 = 1_000_000;

/// Most integer digits a number literal may carry.
pub const MAX_INT_DIGITS: usize = 12;

/// Most fraction digits a number literal may carry.
pub const MAX_FRAC_DIGITS: usize = 6;

/// Length of the optional leading sign of `s`.
pub open spec fn sign_len(s: Seq<char>) -> int {
    if s.len() > 0 && (s[0] == '+' || s[0] == '-') {
        1
    } else {
        0
    }
}

/// True when `s` carries a leading minus sign.
pub open spec fn is_negative_text(s: Seq<char>) -> bool {
    s.len() > 0 && s[0] == '-'
}

/// The digits before the point of an unsigned number body.
pub open spec fn int_part(b: Seq<char>) -> Seq<char> {
    b.take(first_index_of(b, '.'))
}

/// The digits after the point of an unsigned number body.
pub open spec fn frac_part(b: Seq<char>) -> Seq<char> {
    if first_index_of(b, '.') == b.len() {
        Seq::empty()
    } else {
        b.skip(first_index_of(b, '.') + 1)
    }
}

/// True when `b` is a well-formed unsigned number body.
pub open spec fn number_body_ok(b: Seq<char>) -> bool {
    &&& all_digits(int_part(b))
    &&& all_digits(frac_part(b))
    &&& int_part(b).len() + frac_part(b).len() >= 1
    &&& int_part(b).len() <= MAX_INT_DIGITS
    &&& frac_part(b).len() <= MAX_FRAC_DIGITS
}

/// The mantissa denoted by a well-formed unsigned number body.
pub open spec fn number_body_val(b: Seq<char>) -> int {
    digits_val(int_part(b)) * (NUMBER_SCALE as int) + digits_val(frac_part(b)) * ten_pow(
        (MAX_FRAC_DIGITS - frac_part(b).len()) as nat,
    )
}

/// True when `s` reads as a number literal.
pub open spec fn is_number_text(s: Seq<char>) -> bool {
    number_body_ok(s.skip(sign_len(s)))
}

/// The signed mantissa denoted by the number literal `s`.
pub open spec fn number_mantissa(s: Seq<char>) -> int {
    if is_negative_text(s) {
        -number_body_val(s.skip(1))
    } else {
        number_body_val(s.skip(sign_len(s)))
    }
}

/// The value inferred from cell text: the denoted `Number` when `s` reads as
/// a number literal, else `Utf8` with exactly that text.
pub open spec fn is_value_of_text(v: AnyValue, s: Seq<char>) -> bool {
    if is_number_text(s) {
        v matches AnyValue::Number(m) && m as int == number_mantissa(s)
    } else {
        v matches AnyValue::Utf8(t) && t@ == s
    }
}

/// The column type inferred from cell text.
pub open spec fn data_type_of_text(s: Seq<char>) -> DataType {
    if is_number_text(s) {
        DataType::Number
    } else {
        DataType::Utf8
    }
}

/// `ten_pow` is at least one.
pub proof fn lemma_ten_pow_pos(n: nat)
    ensures
        ten_pow(n) >= 1,
    decreases n,
{
    if n > 0 {
        lemma_ten_pow_pos((n - 1) as nat);
    }
}

/// `ten_pow` turns addition of exponents into multiplication.
pub proof fn lemma_ten_pow_add(a: nat, b: nat)
    ensures
        ten_pow(a + b) == ten_pow(a) * ten_pow(b),
    decreases a,
{
    if a > 0 {
        lemma_ten_pow_add((a - 1) as nat, b);
        assert((a + b - 1) as nat == (a - 1) as nat + b);
        assert(10 * (ten_pow((a - 1) as nat) * ten_pow(b)) == (10 * ten_pow((a - 1) as nat))
            * ten_pow(b)) by (nonlinear_arith);
    }
}

/// True when `c` is a decimal digit.
pub fn is_digit_exec(c: char) -> (r: bool)
    ensures
        r == is_digit(c),
{
    let u = c as u32;
    48 <= u && u <= 57
}

/// The numeric value of a decimal digit.
pub fn digit_val_exec(c: char) -> (r: i64)
    requires
        is_digit(c),
    ensures
        r == digit_val(c),
{
    ((c as u32) - 48) as i64
}

/// Ten raised to a small exponent.
fn pow10_small(e: usize) -> (r: i64)
    requires
        e <= 6,
    ensures
        r as int == ten_pow(e as nat),
{
    proof {
        reveal_with_fuel(ten_pow, 8);
    }
    if e == 0 {
        1
    } else if e == 1 {
        10
    } else if e == 2 {
        100
    } else if e == 3 {
        1_000
    } else if e == 4 {
        10_000
    } else if e == 5 {
        100_000
    } else {
        1_000_000
    }
}

/// Scans the run of decimal digits in `s` that starts at `from`, up to
/// `max_len` digits long, and returns where the run ends together with the
/// integer the digits denote; reports `None` when the run is longer.
fn scan_digits(s: &str, from: usize, max_len: usize) -> (r: Option<(usize, i64)>)
    requires
        from <= s@.len(),
        max_len <= 12,
    ensures
        match r {
            Some(p) => {
                &&& from <= p.0 <= s@.len()
                &&& p.0 - from <= max_len
                &&& all_digits(s@.subrange(from as int, p.0 as int))
                &&& p.0 < s@.len() ==> !is_digit(s@[p.0 as int])
                &&& p.1 as int == digits_val(s@.subrange(from as int, p.0 as int))
            },
            None => {
                &&& from + max_len < s@.len()
                &&& all_digits(s@.subrange(from as int, from + max_len + 1))
            },
        },
{
    let n = s.unicode_len();
    let mut i: usize = from;
    let mut acc: i64 = 0;
    loop
        invariant
            from <= i <= n,
            n == s@.len(),
            from <= s@.len(),
            max_len <= 12,
            i - from <= max_len,
            all_digits(s@.subrange(from as int, i as int)),
            acc as int == digits_val(s@.subrange(from as int, i as int)),
            0 <= acc,
            (acc as int) < ten_pow((i - from) as nat),
        ensures
            ({
                let run = s@.subrange(from as int, i as int);
                &&& from <= i <= n
                &&& i - from <= max_len
                &&& all_digits(run)
                &&& acc as int == digits_val(run)
                &&& i < n ==> !is_digit(s@[i as int])
                &&& i - from < max_len || i == n || !is_digit(s@[i as int])
            }),
        decreases n - i,
    {
        if i >= n {
            break ;
        }
        let c = s.get_char(i);
        if !is_digit_exec(c) {
            break ;
        }
        if i - from >= max_len {
            // the run goes on past the cap: give the caller the longer run
            proof {
                assert(s@.subrange(from as int, i as int + 1) == s@.subrange(
                    from as int,
                    i as int,
                ).push(s@[i as int]));
                assert(from + max_len < s@.len());
            }
            return None;
        }
        let d = digit_val_exec(c);
        proof {
            let run = s@.subrange(from as int, i as int);
            let run2 = s@.subrange(from as int, i as int + 1);
            assert(run2.drop_last() == run);
            assert(run2.last() == s@[i as int]);
            assert(digits_val(run2) == digits_val(run) * 10 + digit_val(s@[i as int]));
            lemma_ten_pow_pos((i - from) as nat);
            assert(ten_pow((i + 1 - from) as nat) == 10 * ten_pow((i - from) as nat));
            assert((acc as int) * 10 + (d as int) < ten_pow((i + 1 - from) as nat));
            assert(ten_pow((i + 1 - from) as nat) <= ten_pow(13)) by {
                lemma_ten_pow_mono((i + 1 - from) as nat, 13);
            }
            assert(ten_pow(13) == 10_000_000_000_000) by {
                reveal_with_fuel(ten_pow, 14);
            }
        }
        acc = acc * 10 + d;
        i = i + 1;
    }
    Some((i, acc))
}

/// `digits_val` of a run of at most twelve digits lies below ten to the twelfth.
proof fn lemma_digit_run_bound(run: Seq<char>)
    requires
        all_digits(run),
        run.len() <= 12,
    ensures
        0 <= digits_val(run) < 1_000_000_000_000,
{
    lemma_digits_val_bound(run);
    lemma_ten_pow_mono(run.len(), 12);
    assert(ten_pow(12) == 1_000_000_000_000) by {
        reveal_with_fuel(ten_pow, 13);
    }
}

/// Parses cell text as a number literal, returning the signed fixed-point
/// mantissa it denotes, or `None` when the text is no number literal.
pub fn parse_number(s: &str) -> (r: Option<i64>)
    ensures
        match r {
            Some(m) => is_number_text(s@) && m as int == number_mantissa(s@),
            None => !is_number_text(s@),
        },
{
    let n = s.unicode_len();
    let mut start: usize = 0;
    let mut neg: bool = false;
    if n > 0 {
        let c0 = s.get_char(0);
        if c0 == '+' {
            start = 1;
        } else if c0 == '-' {
            start = 1;
            neg = true;
        }
    }
    proof {
        assert(start as int == sign_len(s@));
        assert(neg == is_negative_text(s@));
    }
    let ghost body = s@.skip(start as int);
    let int_scan = scan_digits(s, start, MAX_INT_DIGITS);
    let (int_end, int_acc) = match int_scan {
        Some(p) => p,
        None => {
            proof {
                // a thirteenth integer digit: the integer part is too long
                lemma_first_index_of(body, '.');
                let fi = first_index_of(body, '.');
                assert(forall|j: int|
                    0 <= j < 13 ==> is_digit(#[trigger] s@.subrange(
                        start as int,
                        start + 13,
                    )[j]));
                assert(forall|j: int| 0 <= j < 13 ==> is_digit(#[trigger] body[j]));
                if fi < 13 {
                    assert(is_digit(body[fi]));
                    assert(false);
                }
                assert(int_part(body).len() > MAX_INT_DIGITS);
            }
            return None;
        },
    };
    let ghost int_run = s@.subrange(start as int, int_end as int);
    proof {
        assert(forall|j: int|
            0 <= j < int_run.len() ==> body[j] == #[trigger] int_run[j]);
        assert(forall|j: int| 0 <= j < int_end - start ==> is_digit(#[trigger] body[j]));
    }
    if int_end == n {
        // no point: the whole body is the integer part
        proof {
            lemma_first_index_of_at(body, '.', body.len() as int);
            assert(int_part(body) =~= int_run);
            assert(frac_part(body) =~= Seq::<char>::empty());
        }
        if int_end == start {
            // no digits at all
            return None;
        }
        proof {
            lemma_digit_run_bound(int_run);
        }
        let m = int_acc * NUMBER_SCALE;
        return Some(if neg { -m } else { m });
    }
    // a character stops the integer run
    let c = s.get_char(int_end);
    let ghost q = int_end - start;
    if c != '.' {
        proof {
            // that character is neither digit nor point: no number literal
            lemma_first_index_of(body, '.');
            let fi = first_index_of(body, '.');
            if fi < q {
                assert(is_digit(body[fi]));
                assert(false);
            }
            assert(body[q] != '.');
            assert(fi > q);
            assert(int_part(body)[q] == body[q]);
            assert(!is_digit(int_part(body)[q]));
        }
        return None;
    }
    proof {
        lemma_first_index_of_at(body, '.', q);
        assert(int_part(body) =~= int_run);
    }
    let ghost frac_seq = s@.subrange(int_end + 1, n as int);
    proof {
        assert(frac_part(body) =~= frac_seq);
    }
    let frac_scan = scan_digits(s, int_end + 1, MAX_FRAC_DIGITS);
    let (frac_end, frac_acc) = match frac_scan {
        Some(p) => p,
        None => {
            proof {
                // more than six characters follow the point
                assert(frac_part(body).len() > MAX_FRAC_DIGITS);
            }
            return None;
        },
    };
    let ghost frac_run = s@.subrange(int_end + 1, frac_end as int);
    if frac_end < n {
        proof {
            // a non-digit after the point: no number literal
            let p2 = frac_end - (int_end + 1);
            assert(frac_seq[p2] == s@[frac_end as int]);
            assert(!is_digit(frac_part(body)[p2]));
        }
        return None;
    }
    let frac_len = frac_end - (int_end + 1);
    if int_end == start && frac_len == 0 {
        // a lone point carries no digits
        return None;
    }
    proof {
        assert(frac_part(body) =~= frac_run);
        lemma_digit_run_bound(int_run);
        lemma_digits_val_bound(frac_run);
        lemma_ten_pow_add(frac_len as nat, (6 - frac_len) as nat);
        lemma_ten_pow_pos((6 - frac_len) as nat);
        lemma_ten_pow_pos(frac_len as nat);
        vstd::arithmetic::mul::lemma_mul_inequality(
            digits_val(frac_run),
            ten_pow(frac_len as nat) - 1,
            ten_pow((6 - frac_len) as nat),
        );
        assert((ten_pow(frac_len as nat) - 1) * ten_pow((6 - frac_len) as nat) == ten_pow(
            frac_len as nat,
        ) * ten_pow((6 - frac_len) as nat) - ten_pow((6 - frac_len) as nat))
            by (nonlinear_arith);
        assert(ten_pow(6) == 1_000_000) by {
            reveal_with_fuel(ten_pow, 7);
        }
    }
    let m = int_acc * NUMBER_SCALE + frac_acc * pow10_small(6 - frac_len);
    Some(if neg { -m } else { m })
}

/// `ten_pow` does not decrease as the exponent grows.
pub proof fn lemma_ten_pow_mono(a: nat, b: nat)
    requires
        a <= b,
    ensures
        ten_pow(a) <= ten_pow(b),
    decreases b,
{
    if a < b {
        lemma_ten_pow_mono(a, (b - 1) as nat);
        lemma_ten_pow_pos((b - 1) as nat);
    }
}

impl AnyValue {
    /// Infers a value from raw cell text: the denoted number when the text
    /// reads as a number literal, else the text itself.
    pub fn from(a: &str) -> (r: AnyValue)
        ensures
            is_value_of_text(r, a@),
    {
        match parse_number(a) {
            Some(m) => AnyValue::Number(m),
            None => AnyValue::Utf8(a.to_owned()),
        }
    }
}

impl DataType {
    /// Infers a column type from raw cell text.
    pub fn from(a: &str) -> (r: DataType)
        ensures
            r == data_type_of_text(a@),
    {
        match parse_number(a) {
            Some(_) => DataType::Number,
            None => DataType::Utf8,
        }
    }
}

impl Clone for AnyValue {
    fn clone(&self) -> (r: Self)
        ensures
            r == *self,
    {
        match self {
            AnyValue::Number(m) => AnyValue::Number(*m),
            AnyValue::Utf8(t) => AnyValue::Utf8(t.clone()),
            AnyValue::Null => AnyValue::Null,
        }
    }
}

/// Value equality: numbers by value, text by content, and `Null` equal to
/// nothing, other `Null`s included.
pub open spec fn value_eq(a: AnyValue, b: AnyValue) -> bool {
    match (a, b) {
        (AnyValue::Number(l), AnyValue::Number(r)) => l == r,
        (AnyValue::Utf8(l), AnyValue::Utf8(r)) => l@ == r@,
        _ => false,
    }
}

impl PartialEq for AnyValue {
    fn eq(&self, other: &Self) -> (r: bool) {
        match (self, other) {
            (AnyValue::Number(l), AnyValue::Number(r)) => *l == *r,
            (AnyValue::Utf8(l), AnyValue::Utf8(r)) => l.eq(r),
            _ => false,
        }
    }
}

impl vstd::std_specs::cmp::PartialEqSpecImpl for AnyValue {
    open spec fn obeys_eq_spec() -> bool {
        true
    }

    open spec fn eq_spec(&self, other: &AnyValue) -> bool {
        value_eq(*self, *other)
    }
}

/// Lexicographic order on character sequences, by code point.
pub open spec fn lex_cmp_chars(a: Seq<char>, b: Seq<char>) -> Ordering
    decreases a.len(),
{
    if a.len() == 0 && b.len() == 0 {
        Ordering::Equal
    } else if a.len() == 0 {
        Ordering::Less
    } else if b.len() == 0 {
        Ordering::Greater
    } else if (a[0] as int) < (b[0] as int) {
        Ordering::Less
    } else if (a[0] as int) > (b[0] as int) {
        Ordering::Greater
    } else {
        lex_cmp_chars(a.drop_first(), b.drop_first())
    }
}

/// Compares two strings lexicographically by code point.
fn lex_cmp_str(a: &str, b: &str) -> (r: Ordering)
    ensures
        r == lex_cmp_chars(a@, b@),
{
    let na = a.unicode_len();
    let nb = b.unicode_len();
    let mut i: usize = 0;
    proof {
        assert(a@.skip(0) =~= a@);
        assert(b@.skip(0) =~= b@);
    }
    while i < na && i < nb
        invariant
            i <= na,
            i <= nb,
            na == a@.len(),
            nb == b@.len(),
            lex_cmp_chars(a@, b@) == lex_cmp_chars(a@.skip(i as int), b@.skip(i as int)),
        decreases na - i,
    {
        let ca = a.get_char(i);
        let cb = b.get_char(i);
        let ua = ca as u32;
        let ub = cb as u32;
        if ua < ub {
            return Ordering::Less;
        }
        if ua > ub {
            return Ordering::Greater;
        }
        proof {
            assert(a@.skip(i as int).drop_first() =~= a@.skip(i + 1));
            assert(b@.skip(i as int).drop_first() =~= b@.skip(i + 1));
        }
        i = i + 1;
    }
    if na == nb {
        Ordering::Equal
    } else if na < nb {
        Ordering::Less
    } else {
        Ordering::Greater
    }
}

/// Value ordering: numbers numerically, text lexically, anything else --
/// `Null` and cross-variant pairs -- incomparable.
pub open spec fn value_partial_cmp(a: AnyValue, b: AnyValue) -> Option<Ordering> {
    match (a, b) {
        (AnyValue::Number(l), AnyValue::Number(r)) => Some(
            if l < r {
                Ordering::Less
            } else if l > r {
                Ordering::Greater
            } else {
                Ordering::Equal
            },
        ),
        (AnyValue::Utf8(l), AnyValue::Utf8(r)) => Some(lex_cmp_chars(l@, r@)),
        _ => None,
    }
}

impl PartialOrd for AnyValue {
    fn partial_cmp(&self, other: &Self) -> (r: Option<Ordering>) {
        match (self, other) {
            (AnyValue::Number(l), AnyValue::Number(r)) => Some(
                if *l < *r {
                    Ordering::Less
                } else if *l > *r {
                    Ordering::Greater
                } else {
                    Ordering::Equal
                },
            ),
            (AnyValue::Utf8(l), AnyValue::Utf8(r)) => Some(lex_cmp_str(l.as_str(), r.as_str())),
            _ => None,
        }
    }
}

impl vstd::std_specs::cmp::PartialOrdSpecImpl for AnyValue {
    open spec fn obeys_partial_cmp_spec() -> bool {
        true
    }

    open spec fn partial_cmp_spec(&self, other: &AnyValue) -> Option<Ordering> {
        value_partial_cmp(*self, *other)
    }
}

/// The total ordering over values: where `value_partial_cmp` orders, its
/// order; where it does not -- `Null` or a cross-variant pair -- `Equal`.
pub open spec fn value_cmp(a: AnyValue, b: AnyValue) -> Ordering {
    match value_partial_cmp(a, b) {
        Some(o) => o,
        None => Ordering::Equal,
    }
}

impl AnyValue {
    /// Totalizes the value ordering: an incomparable pair counts as equal
    /// rather than erroring.
    pub fn cmp_value(&self, other: &AnyValue) -> (r: Ordering)
        ensures
            r == value_cmp(*self, *other),
    {
        match self.partial_cmp(other) {
            Some(o) => o,
            None => Ordering::Equal,
        }
    }
}

} // verus!
