//! An exact ratio of two 128-bit signed integers.
//!
//! Equality and ordering go by the ratio reduced by the greatest common
//! divisor, so that 3/4 and 6/8 compare equal. The sign of the denominator
//! is not normalized anywhere: values with a negative denominator compare
//! by the reduced pair as stored.

use vstd::prelude::*;
use vstd::string::{StrSliceExecFns, StringExecFns};

verus! {

/// The magnitude of the most negative `i128`, which has no positive
/// counterpart of the same type.
pub const I128_MIN_MAGNITUDE: u128 = 170141183460469231731687303715884105728;

/// A ratio of two signed integers. A value built by [`Fraction::new`]
/// always has a nonzero denominator.
#[derive(Clone, Copy, Debug)]
pub struct Fraction {
    pub numerator: i128,
    pub denominator: i128,
}

/// Why a `Fraction` could not be produced.
#[derive(Clone, Copy, Debug, PartialEq, Eq, Structural)]
pub enum FractionError {
    /// The denominator was zero.
    InvalidFraction,
    /// A text token did not hold two integers separated by a slash.
    ParseError,
}

/// The absolute value of `x`.
pub open spec fn abs_int(x: int) -> nat {
    if x >= 0 {
        x as nat
    } else {
        (-x) as nat
    }
}

/// `m` negated when `neg` holds, as produced when a magnitude is given
/// back its sign.
pub open spec fn apply_sign(m: int, neg: bool) -> int {
    if neg {
        -m
    } else {
        m
    }
}

/// The greatest common divisor, by Euclid's recurrence. `gcd_nat(a, 0)`
/// is `a`, so `gcd_nat(0, 0) == 0`.
pub open spec fn gcd_nat(a: nat, b: nat) -> nat
    decreases b,
{
    if b == 0 {
        a
    } else {
        gcd_nat(b, a % b)
    }
}

/// The pair `(n, d)` with both parts divided exactly by their greatest
/// common divisor, each part keeping its own sign. The degenerate pair
/// `(0, 0)` reduces to itself.
pub open spec fn reduced_of(n: int, d: int) -> (int, int) {
    if n == 0 && d == 0 {
        (0, 0)
    } else {
        let g = gcd_nat(abs_int(n), abs_int(d)) as int;
        (apply_sign(abs_int(n) as int / g, n < 0), apply_sign(abs_int(d) as int / g, d < 0))
    }
}

/// Lexicographic order on reduced pairs: numerator first, then denominator.
pub open spec fn pair_cmp(a: (int, int), b: (int, int)) -> core::cmp::Ordering {
    if a.0 < b.0 {
        core::cmp::Ordering::Less
    } else if a.0 > b.0 {
        core::cmp::Ordering::Greater
    } else if a.1 < b.1 {
        core::cmp::Ordering::Less
    } else if a.1 > b.1 {
        core::cmp::Ordering::Greater
    } else {
        core::cmp::Ordering::Equal
    }
}

/// The decimal digit character for `n`, for `n` below ten.
pub open spec fn digit_char(n: nat) -> char {
    if n == 0 {
        '0'
    } else if n == 1 {
        '1'
    } else if n == 2 {
        '2'
    } else if n == 3 {
        '3'
    } else if n == 4 {
        '4'
    } else if n == 5 {
        '5'
    } else if n == 6 {
        '6'
    } else if n == 7 {
        '7'
    } else if n == 8 {
        '8'
    } else {
        '9'
    }
}

/// The decimal digits of `n`, most significant first.
pub open spec fn dec_digits(n: nat) -> Seq<char>
    decreases n,
{
    if n < 10 {
        seq![digit_char(n)]
    } else {
        dec_digits(n / 10) + seq![digit_char(n % 10)]
    }
}

/// The decimal text of `x`: a minus sign for negative values, then the
/// digits of the magnitude.
pub open spec fn int_text(x: int) -> Seq<char> {
    if x < 0 {
        seq!['-'] + dec_digits(abs_int(x))
    } else {
        dec_digits(abs_int(x))
    }
}

/// What `display` renders for the pair `p`: the numerator alone when the
/// stored denominator is 1, otherwise `numerator/denominator`.
pub open spec fn display_text(p: (int, int)) -> Seq<char> {
    if p.1 == 1 {
        int_text(p.0)
    } else {
        int_text(p.0) + seq!['/'] + int_text(p.1)
    }
}

/// Every character of a decimal digit string is a digit.
pub proof fn lemma_dec_digits_are_digits(n: nat)
    ensures
        forall|i: int|
            0 <= i < dec_digits(n).len() ==> '0' <= #[trigger] dec_digits(n)[i] <= '9',
    decreases n,
{
    if n >= 10 {
        lemma_dec_digits_are_digits(n / 10);
        assert forall|i: int| 0 <= i < dec_digits(n).len() implies '0' <= #[trigger] dec_digits(
            n,
        )[i] <= '9' by {
            if i < dec_digits(n / 10).len() {
                assert(dec_digits(n)[i] == dec_digits(n / 10)[i]);
            }
        }
    }
}

/// A fraction with stored denominator 1 is rendered as the numerator's
/// decimal form, with no slash anywhere in the text.
pub proof fn lemma_unitary_display_has_no_slash(p: (int, int))
    requires
        p.1 == 1,
    ensures
        display_text(p) == int_text(p.0),
        forall|i: int| 0 <= i < display_text(p).len() ==> #[trigger] display_text(p)[i] != '/',
{
    lemma_dec_digits_are_digits(abs_int(p.0));
    assert forall|i: int| 0 <= i < display_text(p).len() implies #[trigger] display_text(p)[i]
        != '/' by {
        if p.0 < 0 {
            if i > 0 {
                assert(int_text(p.0)[i] == dec_digits(abs_int(p.0))[i - 1]);
            }
        }
    }
}

/// The decimal digit character for `d`, as a one-character string slice.
fn digit_str(d: u128) -> (r: &'static str)
    requires
        d < 10,
    ensures
        r@ == seq![digit_char(d as nat)],
{
    let r: &'static str = if d == 0 {
        "0"
    } else if d == 1 {
        "1"
    } else if d == 2 {
        "2"
    } else if d == 3 {
        "3"
    } else if d == 4 {
        "4"
    } else if d == 5 {
        "5"
    } else if d == 6 {
        "6"
    } else if d == 7 {
        "7"
    } else if d == 8 {
        "8"
    } else {
        "9"
    };
    proof {
        reveal_strlit("0");
        reveal_strlit("1");
        reveal_strlit("2");
        reveal_strlit("3");
        reveal_strlit("4");
        reveal_strlit("5");
        reveal_strlit("6");
        reveal_strlit("7");
        reveal_strlit("8");
        reveal_strlit("9");
        assert(r@ =~= seq![digit_char(d as nat)]);
    }
    r
}

/// Appends the decimal digits of `n` to `s`, most significant first.
fn push_decimal(s: &mut String, n: u128)
    ensures
        final(s)@ == old(s)@ + dec_digits(n as nat),
    decreases n,
{
    if n >= 10 {
        push_decimal(s, n / 10);
    }
    let piece: &'static str = digit_str(n % 10);
    s.append(piece);
    proof {
        assert(s@ =~= old(s)@ + dec_digits(n as nat));
    }
}

/// Appends the decimal text of `x` to `s`.
fn push_signed(s: &mut String, x: i128)
    ensures
        final(s)@ == old(s)@ + int_text(x as int),
{
    if x < 0 {
        proof {
            reveal_strlit("-");
        }
        s.append("-");
    }
    let m: u128 = magnitude(x);
    push_decimal(s, m);
    proof {
        assert(s@ =~= old(s)@ + int_text(x as int));
    }
}

/// Whether `c` is a decimal digit, `'0'` (code point 48) to `'9'` (57).
pub open spec fn is_digit(c: char) -> bool {
    48 <= c as int <= 57
}

/// The value of the decimal digit `c`.
pub open spec fn digit_value(c: char) -> int {
    c as int - 48
}

/// Whether every character of `s` is a decimal digit.
pub open spec fn all_digits(s: Seq<char>) -> bool {
    forall|i: int| 0 <= i < s.len() ==> is_digit(#[trigger] s[i])
}

/// The number written by the digit string `s`, most significant first.
pub open spec fn digits_value(s: Seq<char>) -> int
    decreases s.len(),
{
    if s.len() == 0 {
        0
    } else {
        digits_value(s.drop_last()) * 10 + digit_value(s.last())
    }
}

/// The digits of an integer token: everything after a leading sign.
pub open spec fn int_token_body(s: Seq<char>) -> Seq<char> {
    if s.len() > 0 && (s[0] == '-' || s[0] == '+') {
        s.drop_first()
    } else {
        s
    }
}

/// Whether the integer token `s` denotes a negative number.
pub open spec fn int_token_negative(s: Seq<char>) -> bool {
    s.len() > 0 && s[0] == '-'
}

/// The number written by the integer token `s`.
pub open spec fn int_token_value(s: Seq<char>) -> int {
    if int_token_negative(s) {
        -digits_value(int_token_body(s))
    } else {
        digits_value(int_token_body(s))
    }
}

/// Whether `s` is an integer token a 128-bit value can be read from: an
/// optional sign, then at least one digit, with the value in range.
pub open spec fn int_token_valid(s: Seq<char>) -> bool {
    &&& int_token_body(s).len() > 0
    &&& all_digits(int_token_body(s))
    &&& i128::MIN <= int_token_value(s) <= i128::MAX
}

/// The index of the first slash in `s`, or `s.len()` when there is none.
pub open spec fn first_slash(s: Seq<char>) -> int
    decreases s.len(),
{
    if s.len() == 0 {
        0
    } else if s[0] == '/' {
        0
    } else {
        1 + first_slash(s.drop_first())
    }
}

/// What parsing a fraction token yields: the part before the first slash
/// and the part between the first and second slash (or the end) must both
/// be integer tokens, and the denominator must not be zero. Anything after
/// a second slash is ignored.
pub open spec fn parse_text(s: Seq<char>) -> Result<(int, int), FractionError> {
    let p = first_slash(s);
    if p == s.len() {
        Err(FractionError::ParseError)
    } else {
        let num_part = s.take(p);
        let rest = s.skip(p + 1);
        let den_part = rest.take(first_slash(rest));
        if int_token_valid(num_part) && int_token_valid(den_part) {
            if int_token_value(den_part) == 0 {
                Err(FractionError::InvalidFraction)
            } else {
                Ok((int_token_value(num_part), int_token_value(den_part)))
            }
        } else {
            Err(FractionError::ParseError)
        }
    }
}

/// An index with a slash and no slash before it is the first slash.
proof fn lemma_first_slash_converse(s: Seq<char>, i: int)
    requires
        0 <= i <= s.len(),
        forall|j: int| 0 <= j < i ==> s[j] != '/',
        i < s.len() ==> s[i] == '/',
    ensures
        first_slash(s) == i,
    decreases s.len(),
{
    if s.len() > 0 && i > 0 {
        lemma_first_slash_converse(s.drop_first(), i - 1);
    }
}

/// A digit string names a non-negative number.
proof fn lemma_digits_value_nonneg(s: Seq<char>)
    requires
        all_digits(s),
    ensures
        digits_value(s) >= 0,
    decreases s.len(),
{
    if s.len() > 0 {
        lemma_digits_value_nonneg(s.drop_last());
        assert(digits_value(s.drop_last()) * 10 >= 0) by (nonlinear_arith)
            requires
                digits_value(s.drop_last()) >= 0,
        ;
    }
}

/// Reading more digits never shrinks the value.
proof fn lemma_digits_value_take(s: Seq<char>, j: int)
    requires
        all_digits(s),
        0 <= j <= s.len(),
    ensures
        0 <= digits_value(s.take(j)) <= digits_value(s),
    decreases s.len(),
{
    lemma_digits_value_nonneg(s.take(j));
    if j == s.len() {
        assert(s.take(j) =~= s);
    } else {
        assert(s.drop_last().take(j) =~= s.take(j));
        lemma_digits_value_take(s.drop_last(), j);
        lemma_digits_value_nonneg(s.drop_last());
        assert(digits_value(s.drop_last()) * 10 >= digits_value(s.drop_last()))
            by (nonlinear_arith)
            requires
                digits_value(s.drop_last()) >= 0,
        ;
    }
}

/// The greatest common divisor divides both of its arguments.
proof fn lemma_gcd_divides(a: nat, b: nat)
    ensures
        gcd_nat(a, b) != 0 ==> (a as int) % (gcd_nat(a, b) as int) == 0,
        gcd_nat(a, b) != 0 ==> (b as int) % (gcd_nat(a, b) as int) == 0,
    decreases b,
{
    let g = gcd_nat(a, b) as int;
    if b == 0 {
        if a != 0 {
            vstd::arithmetic::div_mod::lemma_mod_self_0(a as int);
            vstd::arithmetic::div_mod::lemma_small_mod(0nat, a);
        }
    } else {
        lemma_gcd_divides(b, a % b);
        if gcd_nat(a, b) != 0 {
            vstd::arithmetic::div_mod::lemma_fundamental_div_mod(a as int, b as int);
            vstd::arithmetic::div_mod::lemma_mul_mod_noop_left(b as int, a as int / b as int, g);
            vstd::arithmetic::div_mod::lemma_small_mod(0nat, gcd_nat(a, b));
            assert(0int * (a as int / b as int) == 0) by (nonlinear_arith);
            assert((((b as int) * (a as int / b as int)) + (a as int % b as int)) % g == 0) by {
                vstd::arithmetic::div_mod::lemma_add_mod_noop(
                    (b as int) * (a as int / b as int),
                    a as int % b as int,
                    g,
                );
            }
        }
    }
}

/// Reduction keeps the rational value: the reduced pair of `(n, d)`
/// cross-multiplies back to `(n, d)`, and its denominator stays nonzero.
pub proof fn lemma_reduced_keeps_value(n: int, d: int)
    requires
        d != 0,
    ensures
        reduced_of(n, d).1 != 0,
        reduced_of(n, d).0 * d == n * reduced_of(n, d).1,
{
    let na = abs_int(n) as int;
    let da = abs_int(d) as int;
    lemma_gcd_zero(abs_int(n), abs_int(d));
    lemma_gcd_divides(abs_int(n), abs_int(d));
    let g = gcd_nat(abs_int(n), abs_int(d)) as int;
    let qn = na / g;
    let qd = da / g;
    vstd::arithmetic::div_mod::lemma_fundamental_div_mod(na, g);
    vstd::arithmetic::div_mod::lemma_fundamental_div_mod(da, g);
    let s1: int = if n < 0 {
        -1
    } else {
        1
    };
    let s2: int = if d < 0 {
        -1
    } else {
        1
    };
    assert(n == s1 * (g * qn) && d == s2 * (g * qd)) by (nonlinear_arith)
        requires
            na == g * qn,
            da == g * qd,
            s1 == (if n < 0 { -1int } else { 1int }),
            s2 == (if d < 0 { -1int } else { 1int }),
            na == (if n < 0 { -n } else { n }),
            da == (if d < 0 { -d } else { d }),
    ;
    assert(reduced_of(n, d).0 == s1 * qn && reduced_of(n, d).1 == s2 * qd);
    assert(qd != 0) by (nonlinear_arith)
        requires
            da == g * qd,
            da != 0,
    ;
    assert(s2 * qd != 0) by (nonlinear_arith)
        requires
            qd != 0,
            s2 == 1 || s2 == -1,
    ;
    assert((s1 * qn) * (s2 * (g * qd)) == (s1 * (g * qn)) * (s2 * qd)) by (nonlinear_arith);
}

/// The greatest common divisor is zero exactly when both arguments are.
proof fn lemma_gcd_zero(a: nat, b: nat)
    ensures
        gcd_nat(a, b) == 0 <==> (a == 0 && b == 0),
    decreases b,
{
    if b != 0 {
        lemma_gcd_zero(b, a % b);
    }
}

/// The magnitude of `x`, exact also for the most negative value.
fn magnitude(x: i128) -> (m: u128)
    ensures
        m as nat == abs_int(x as int),
{
    if x >= 0 {
        x as u128
    } else {
        ((-(x + 1)) as u128) + 1
    }
}

/// Euclid's algorithm on unsigned 128-bit integers.
fn gcd_u128(a: u128, b: u128) -> (g: u128)
    ensures
        g as nat == gcd_nat(a as nat, b as nat),
{
    let mut x: u128 = a;
    let mut y: u128 = b;
    while y != 0
        invariant
            gcd_nat(x as nat, y as nat) == gcd_nat(a as nat, b as nat),
        decreases y,
    {
        let r: u128 = x % y;
        assert(gcd_nat(x as nat, y as nat) == gcd_nat(y as nat, r as nat));
        x = y;
        y = r;
    }
    x
}

/// Turns a magnitude back into a signed integer.
fn signed_from_magnitude(m: u128, neg: bool) -> (r: i128)
    requires
        neg ==> m <= I128_MIN_MAGNITUDE,
        !neg ==> m < I128_MIN_MAGNITUDE,
    ensures
        r as int == apply_sign(m as int, neg),
{
    if neg {
        if m == I128_MIN_MAGNITUDE {
            i128::MIN
        } else {
            -(m as i128)
        }
    } else {
        m as i128
    }
}

/// The index of the first slash in `s` at or after `from`, or the length
/// of `s` when there is none.
fn find_slash(s: &str, from: usize) -> (p: usize)
    requires
        from <= s@.len(),
        s@.len() <= usize::MAX,
    ensures
        from <= p <= s@.len(),
        p - from == first_slash(s@.skip(from as int)),
        p < s@.len() ==> s@[p as int] == '/',
{
    let len: usize = s.unicode_len();
    let mut i: usize = from;
    while i < len
        invariant
            from <= i <= len,
            len == s@.len(),
            forall|j: int| from <= j < i ==> s@[j] != '/',
        decreases len - i,
    {
        if s.get_char(i) == '/' {
            proof {
                lemma_first_slash_converse(s@.skip(from as int), i - from);
            }
            return i;
        }
        i = i + 1;
    }
    proof {
        lemma_first_slash_converse(s@.skip(from as int), i - from);
    }
    len
}

/// Reads the integer token in `s` between the indices `from` and `to`.
fn parse_int_segment(s: &str, from: usize, to: usize) -> (r: Result<i128, FractionError>)
    requires
        from <= to <= s@.len(),
    ensures
        int_token_valid(s@.subrange(from as int, to as int)) ==> (r matches Ok(x) && x as int
            == int_token_value(s@.subrange(from as int, to as int))),
        !int_token_valid(s@.subrange(from as int, to as int)) ==> r == Err::<
            i128,
            FractionError,
        >(FractionError::ParseError),
{
    let ghost seg = s@.subrange(from as int, to as int);
    if from == to {
        return Err(FractionError::ParseError);
    }
    let c0: char = s.get_char(from);
    let neg: bool = c0 == '-';
    let start: usize = if neg || c0 == '+' {
        from + 1
    } else {
        from
    };
    let ghost body = int_token_body(seg);
    proof {
        assert(body =~= s@.subrange(start as int, to as int));
        assert(neg == int_token_negative(seg));
    }
    if start == to {
        return Err(FractionError::ParseError);
    }
    let mut mag: u128 = 0;
    let mut i: usize = start;
    proof {
        assert(body.take(0) =~= Seq::<char>::empty());
    }
    while i < to
        invariant
            from <= start <= i <= to,
            to <= s@.len(),
            seg == s@.subrange(from as int, to as int),
            body == int_token_body(seg),
            neg == int_token_negative(seg),
            body == s@.subrange(start as int, to as int),
            body.len() == to - start,
            all_digits(body.take(i - start)),
            mag as int == digits_value(body.take(i - start)),
            mag <= I128_MIN_MAGNITUDE,
        decreases to - i,
    {
        let c: char = s.get_char(i);
        let cv: u32 = c as u32;
        proof {
            assert(body[i - start] == c);
        }
        if cv < 48 || cv > 57 {
            proof {
                assert(!is_digit(body[i - start]));
            }
            return Err(FractionError::ParseError);
        }
        let dv: u128 = (cv - 48) as u128;
        let limit: u128 = (I128_MIN_MAGNITUDE - dv) / 10;
        proof {
            assert(body.take(i - start + 1) =~= body.take(i - start).push(c));
            assert(body.take(i - start + 1).drop_last() =~= body.take(i - start));
            assert(digits_value(body.take(i - start + 1)) == mag * 10 + dv);
        }
        if mag > limit {
            proof {
                let y = (I128_MIN_MAGNITUDE - dv) as int;
                vstd::arithmetic::div_mod::lemma_fundamental_div_mod(y, 10);
                vstd::arithmetic::div_mod::lemma_mod_bound(y, 10);
                assert(mag * 10 > y) by (nonlinear_arith)
                    requires
                        mag as int > y / 10,
                        y == 10 * (y / 10) + y % 10,
                        y % 10 < 10,
                ;
                if all_digits(body) {
                    lemma_digits_value_take(body, i - start + 1);
                    assert(digits_value(body) > I128_MIN_MAGNITUDE);
                }
            }
            return Err(FractionError::ParseError);
        }
        proof {
            let y = (I128_MIN_MAGNITUDE - dv) as int;
            vstd::arithmetic::div_mod::lemma_fundamental_div_mod(y, 10);
            vstd::arithmetic::div_mod::lemma_mod_bound(y, 10);
            assert(mag * 10 <= y) by (nonlinear_arith)
                requires
                    mag as int <= y / 10,
                    y == 10 * (y / 10) + y % 10,
                    y % 10 >= 0,
            ;
        }
        mag = mag * 10 + dv;
        i = i + 1;
    }
    proof {
        assert(body.take(to - start) =~= body);
    }
    if !neg && mag == I128_MIN_MAGNITUDE {
        return Err(FractionError::ParseError);
    }
    Ok(signed_from_magnitude(mag, neg))
}

/// Divides both magnitudes by the given common divisor and restores the
/// signs of the original parts.
fn reduce_with_divisor(n: i128, d: i128, mn: u128, md: u128, g: u128) -> (r: (i128, i128))
    requires
        g != 0,
        mn as nat == abs_int(n as int),
        md as nat == abs_int(d as int),
        g as nat == gcd_nat(abs_int(n as int), abs_int(d as int)),
    ensures
        (r.0 as int, r.1 as int) == reduced_of(n as int, d as int),
{
    proof {
        lemma_gcd_zero(abs_int(n as int), abs_int(d as int));
        vstd::arithmetic::div_mod::lemma_div_nonincreasing(mn as int, g as int);
        vstd::arithmetic::div_mod::lemma_div_nonincreasing(md as int, g as int);
        vstd::arithmetic::div_mod::lemma_div_pos_is_pos(mn as int, g as int);
        vstd::arithmetic::div_mod::lemma_div_pos_is_pos(md as int, g as int);
    }
    let qn: u128 = mn / g;
    let qd: u128 = md / g;
    (signed_from_magnitude(qn, n < 0), signed_from_magnitude(qd, d < 0))
}

/// Relies on `num::integer::gcd`, which runs Stein's binary algorithm on
/// `i128` and returns the non-negative greatest common divisor. Inputs on
/// which that algorithm would take the absolute value of `i128::MIN`, and
/// so panic, are excluded.
#[verifier::external_body]
fn gcd_i128(a: i128, b: i128) -> (g: i128)
    requires
        !(a == i128::MIN && b == i128::MIN),
        !(a == i128::MIN && b == 0),
        !(a == 0 && b == i128::MIN),
    ensures
        g as int == gcd_nat(abs_int(a as int), abs_int(b as int)),
{
    num::integer::gcd(a, b)
}

impl Fraction {
    /// The mathematical pair this fraction stands for.
    pub open spec fn view(self) -> (int, int) {
        (self.numerator as int, self.denominator as int)
    }

    /// A fraction built by `new` always has a nonzero denominator.
    pub open spec fn wf(self) -> bool {
        self.denominator != 0
    }

    /// Builds `numerator / denominator`; a zero denominator is rejected.
    pub fn new(numerator: i128, denominator: i128) -> (r: Result<Fraction, FractionError>)
        ensures
            denominator != 0 ==> r == Ok::<Fraction, FractionError>(
                Fraction { numerator, denominator },
            ),
            denominator == 0 ==> r == Err::<Fraction, FractionError>(
                FractionError::InvalidFraction,
            ),
    {
        if denominator == 0 {
            Err(FractionError::InvalidFraction)
        } else {
            Ok(Fraction { numerator, denominator })
        }
    }

    /// True exactly when the stored denominator is 1. The stored field is
    /// tested on purpose: a fraction stored as 2/2 is not unitary even
    /// though its value is 1, and the folding step of the decomposer
    /// relies on that distinction.
    pub fn is_unitary(&self) -> (r: bool)
        ensures
            r == (self.denominator == 1),
    {
        self.denominator == 1
    }

    /// Reads a fraction from a token of the form
    /// `"<integer>/<integer>"`. A missing slash or a malformed integer
    /// part is a parse error; a zero denominator is rejected as an
    /// invalid fraction. Anything after a second slash is ignored.
    pub fn from_str(s: &str) -> (r: Result<Fraction, FractionError>)
        ensures
            parse_text(s@) matches Ok(p) ==> (r matches Ok(f) && f@ == p && f.wf()),
            parse_text(s@) matches Err(e) ==> r == Err::<Fraction, FractionError>(e),
    {
        let len: usize = s.unicode_len();
        let p: usize = find_slash(s, 0);
        proof {
            assert(s@.skip(0) =~= s@);
        }
        if p == len {
            return Err(FractionError::ParseError);
        }
        let q: usize = find_slash(s, p + 1);
        proof {
            assert(s@.take(p as int) =~= s@.subrange(0, p as int));
            assert(s@.skip(p + 1).take(first_slash(s@.skip(p + 1))) =~= s@.subrange(
                p + 1,
                q as int,
            ));
        }
        let numerator: i128 = match parse_int_segment(s, 0, p) {
            Ok(x) => x,
            Err(e) => {
                return Err(e);
            },
        };
        let denominator: i128 = match parse_int_segment(s, p + 1, q) {
            Ok(x) => x,
            Err(e) => {
                return Err(e);
            },
        };
        if denominator == 0 {
            return Err(FractionError::InvalidFraction);
        }
        Ok(Fraction { numerator, denominator })
    }

    /// Renders the fraction: the numerator alone when the stored
    /// denominator is 1, otherwise `numerator/denominator`.
    pub fn display(&self) -> (r: String)
        ensures
            r@ == display_text(self@),
    {
        let mut s: String = String::new();
        push_signed(&mut s, self.numerator);
        if self.denominator != 1 {
            proof {
                reveal_strlit("/");
            }
            s.append("/");
            push_signed(&mut s, self.denominator);
        }
        proof {
            assert(s@ =~= display_text(self@));
        }
        s
    }

    /// The reduced ratio, computed with the greatest common divisor taken
    /// from the `num` crate. The two inputs on which that crate's `gcd`
    /// panics are excluded.
    pub fn get_ratio(&self) -> (r: (i128, i128))
        requires
            self.wf(),
            !(self.numerator == i128::MIN && self.denominator == i128::MIN),
            !(self.numerator == 0 && self.denominator == i128::MIN),
        ensures
            (r.0 as int, r.1 as int) == reduced_of(self@.0, self@.1),
    {
        let g: i128 = gcd_i128(self.numerator, self.denominator);
        proof {
            lemma_gcd_zero(abs_int(self@.0), abs_int(self@.1));
        }
        let mn: u128 = magnitude(self.numerator);
        let md: u128 = magnitude(self.denominator);
        let gm: u128 = magnitude(g);
        reduce_with_divisor(self.numerator, self.denominator, mn, md, gm)
    }

    /// The reduced ratio, by this crate's own Euclidean algorithm; total,
    /// so the comparison traits can use it on any pair of values.
    fn reduced_pair(&self) -> (r: (i128, i128))
        ensures
            (r.0 as int, r.1 as int) == reduced_of(self@.0, self@.1),
    {
        let mn: u128 = magnitude(self.numerator);
        let md: u128 = magnitude(self.denominator);
        let g: u128 = gcd_u128(mn, md);
        proof {
            lemma_gcd_zero(abs_int(self@.0), abs_int(self@.1));
        }
        if g == 0 {
            (0, 0)
        } else {
            reduce_with_divisor(self.numerator, self.denominator, mn, md, g)
        }
    }
}

impl From<i128> for Fraction {
    /// A whole number as a fraction over 1.
    fn from(n: i128) -> (r: Fraction) {
        Fraction { numerator: n, denominator: 1 }
    }
}

impl vstd::std_specs::convert::FromSpecImpl<i128> for Fraction {
    open spec fn obeys_from_spec() -> bool {
        true
    }

    open spec fn from_spec(n: i128) -> Fraction {
        Fraction { numerator: n, denominator: 1 }
    }
}

impl PartialEq for Fraction {
    /// Two fractions are equal when their reduced ratios are equal.
    fn eq(&self, other: &Self) -> (r: bool) {
        let a = self.reduced_pair();
        let b = other.reduced_pair();
        a.0 == b.0 && a.1 == b.1
    }
}

impl vstd::std_specs::cmp::PartialEqSpecImpl for Fraction {
    open spec fn obeys_eq_spec() -> bool {
        true
    }

    open spec fn eq_spec(&self, other: &Fraction) -> bool {
        reduced_of(self@.0, self@.1) == reduced_of(other@.0, other@.1)
    }
}

impl PartialOrd for Fraction {
    /// Fractions are ordered by their reduced ratios, numerator first.
    fn partial_cmp(&self, other: &Self) -> (r: Option<core::cmp::Ordering>) {
        let a = self.reduced_pair();
        let b = other.reduced_pair();
        if a.0 < b.0 {
            Some(core::cmp::Ordering::Less)
        } else if a.0 > b.0 {
            Some(core::cmp::Ordering::Greater)
        } else if a.1 < b.1 {
            Some(core::cmp::Ordering::Less)
        } else if a.1 > b.1 {
            Some(core::cmp::Ordering::Greater)
        } else {
            Some(core::cmp::Ordering::Equal)
        }
    }
}

impl vstd::std_specs::cmp::PartialOrdSpecImpl for Fraction {
    open spec fn obeys_partial_cmp_spec() -> bool {
        true
    }

    open spec fn partial_cmp_spec(&self, other: &Fraction) -> Option<core::cmp::Ordering> {
        Some(pair_cmp(reduced_of(self@.0, self@.1), reduced_of(other@.0, other@.1)))
    }
}

} // verus!
