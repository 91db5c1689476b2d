//! The greedy (Fibonacci–Sylvester) Egyptian-fraction decomposition.
//!
//! A fraction n/d with n ≥ 0 and d > 0 is reduced to an ordered sequence of
//! unit fractions by repeatedly subtracting the largest unit fraction that
//! does not exceed the remainder; whole-number terms produced along the way
//! are then folded into a single leading term.

use vstd::arithmetic::div_mod::{
    lemma_div_is_ordered, lemma_div_is_ordered_by_denominator, lemma_div_nonincreasing,
    lemma_div_pos_is_pos, lemma_fundamental_div_mod, lemma_mod_bound,
};
use vstd::prelude::*;
use vstd::string::StringExecFns;

use crate::fraction::{display_text, Fraction};

verus! {

/// The mathematical pairs behind a sequence of fractions.
pub open spec fn vals(s: Seq<Fraction>) -> Seq<(int, int)> {
    s.map_values(|f: Fraction| f@)
}

/// One greedy step from n/d (n ≥ 2, d > 0, neither part dividing the
/// other): the emitted denominator `k` is positive, the remainder numerator
/// `n·k − d` equals `n − d % n` and so drops strictly below `n` while
/// staying positive, and the remainder denominator `d·k` stays positive.
proof fn lemma_greedy_step(n: int, d: int)
    requires
        n >= 0,
        d > 0,
        n % d != 0,
        d % n != 0,
    ensures
        n >= 2,
        d / n + 1 >= 1,
        n * (d / n + 1) - d == n - d % n,
        1 <= n * (d / n + 1) - d < n,
        d * (d / n + 1) > 0,
{
    let q = d / n;
    let r = d % n;
    if n == 0 {
        vstd::arithmetic::div_mod::lemma_small_mod(0nat, d as nat);
        assert(n % d == 0);
    }
    if n == 1 {
        lemma_fundamental_div_mod(d, 1);
    }
    lemma_fundamental_div_mod(d, n);
    lemma_mod_bound(d, n);
    lemma_div_pos_is_pos(d, n);
    assert(n * (q + 1) - d == n - r) by (nonlinear_arith)
        requires
            d == n * q + r,
    ;
    assert(d * (q + 1) > 0) by (nonlinear_arith)
        requires
            d > 0,
            q >= 0,
    ;
}

/// The greedy decomposition of n/d, for n ≥ 0 and d > 0, as the original
/// recursion produces it: if d divides n the single whole-number term
/// (n/d)/1; if n divides d the single unit term 1/(d/n); otherwise the unit
/// term 1/k with k = ⌊d/n⌋ + 1, followed by the decomposition of the
/// remainder (n·k − d)/(d·k).
pub open spec fn greedy(n: int, d: int) -> Seq<(int, int)>
    decreases n,
        when n >= 0 && d > 0
        via greedy_decreases
{
    if n % d == 0 {
        seq![(n / d, 1int)]
    } else if d % n == 0 {
        seq![(1int, d / n)]
    } else {
        let k = d / n + 1;
        seq![(1int, k)] + greedy(n * k - d, d * k)
    }
}

#[via_fn]
proof fn greedy_decreases(n: int, d: int) {
    if n % d != 0 && d % n != 0 {
        lemma_greedy_step(n, d);
    }
}

/// Whether every intermediate denominator of the greedy recursion on n/d
/// stays within `i128`. The numerators only shrink, so they need no bound.
pub open spec fn fits(n: int, d: int) -> bool
    decreases n,
        when n >= 0 && d > 0
        via fits_decreases
{
    if n % d == 0 {
        true
    } else if d % n == 0 {
        true
    } else {
        let k = d / n + 1;
        d * k <= i128::MAX && fits(n * k - d, d * k)
    }
}

#[via_fn]
proof fn fits_decreases(n: int, d: int) {
    if n % d != 0 && d % n != 0 {
        lemma_greedy_step(n, d);
    }
}

/// Every term of a greedy decomposition has a positive denominator and a
/// non-negative numerator, and for a positive input a positive numerator.
pub proof fn lemma_greedy_terms(n: int, d: int)
    requires
        n >= 0,
        d > 0,
    ensures
        forall|i: int|
            0 <= i < greedy(n, d).len() ==> {
                &&& (#[trigger] greedy(n, d)[i]).1 >= 1
                &&& greedy(n, d)[i].0 >= 0
                &&& (n >= 1 ==> greedy(n, d)[i].0 >= 1)
            },
    decreases n,
{
    vstd::arithmetic::div_mod::lemma_small_mod(0nat, d as nat);
    if n % d == 0 {
        lemma_div_pos_is_pos(n, d);
        if n >= 1 {
            // d divides n and n is positive, so the quotient is positive
            lemma_fundamental_div_mod(n, d);
            lemma_mod_bound(n, d);
            assert(n == d * (n / d));
            if n / d <= 0 {
                assert(d * (n / d) <= 0) by (nonlinear_arith)
                    requires
                        d > 0,
                        n / d <= 0,
                ;
            }
        }
    } else if d % n == 0 {
        lemma_div_pos_is_pos(d, n);
        if d / n == 0 {
            lemma_fundamental_div_mod(d, n);
            assert(d == n * (d / n) + d % n);
            assert(n * 0 == 0) by (nonlinear_arith);
        }
    } else {
        lemma_greedy_step(n, d);
        let k = d / n + 1;
        lemma_greedy_terms(n * k - d, d * k);
        assert forall|i: int| 0 <= i < greedy(n, d).len() implies {
            &&& (#[trigger] greedy(n, d)[i]).1 >= 1
            &&& greedy(n, d)[i].0 >= 0
            &&& (n >= 1 ==> greedy(n, d)[i].0 >= 1)
        } by {
            if i > 0 {
                assert(greedy(n, d)[i] == greedy(n * k - d, d * k)[i - 1]);
            }
        }
    }
}

/// The sum of the numerators of the terms whose stored denominator is 1.
pub open spec fn units_sum(s: Seq<(int, int)>) -> int
    decreases s.len(),
{
    if s.len() == 0 {
        0
    } else {
        (if s[0].1 == 1 {
            s[0].0
        } else {
            0
        }) + units_sum(s.drop_first())
    }
}

/// The terms whose stored denominator is not 1, in their original order.
pub open spec fn non_units(s: Seq<(int, int)>) -> Seq<(int, int)>
    decreases s.len(),
{
    if s.len() == 0 {
        Seq::empty()
    } else {
        let rest = non_units(s.drop_first());
        if s[0].1 == 1 {
            rest
        } else {
            seq![s[0]] + rest
        }
    }
}

/// What folding produces: when the stored-denominator-1 terms sum to zero
/// (in particular when there are none) only the other terms remain, in
/// order; otherwise a single whole-number term carrying that sum is put in
/// front of them.
pub open spec fn fold_units(s: Seq<(int, int)>) -> Seq<(int, int)> {
    if units_sum(s) == 0 {
        non_units(s)
    } else {
        seq![(units_sum(s), 1int)] + non_units(s)
    }
}

/// Appending a term adds its unit contribution at the end.
proof fn lemma_units_sum_push(s: Seq<(int, int)>, x: (int, int))
    ensures
        units_sum(s.push(x)) == units_sum(s) + (if x.1 == 1 {
            x.0
        } else {
            0
        }),
    decreases s.len(),
{
    if s.len() == 0 {
        assert(s.push(x).drop_first() =~= s);
    } else {
        assert(s.push(x).drop_first() =~= s.drop_first().push(x));
        lemma_units_sum_push(s.drop_first(), x);
    }
}

/// Appending a term keeps or appends it among the non-unit terms.
proof fn lemma_non_units_push(s: Seq<(int, int)>, x: (int, int))
    ensures
        non_units(s.push(x)) == if x.1 == 1 {
            non_units(s)
        } else {
            non_units(s).push(x)
        },
    decreases s.len(),
{
    if s.len() == 0 {
        assert(s.push(x).drop_first() =~= s);
        if x.1 != 1 {
            assert(non_units(s.push(x)) =~= non_units(s).push(x));
        }
    } else {
        assert(s.push(x).drop_first() =~= s.drop_first().push(x));
        lemma_non_units_push(s.drop_first(), x);
        if x.1 != 1 {
            assert(non_units(s.push(x)) =~= non_units(s).push(x));
        }
    }
}

/// With no negative whole-number terms, the units sum is non-negative.
proof fn lemma_units_sum_nonneg(s: Seq<(int, int)>)
    requires
        forall|i: int| 0 <= i < s.len() && (#[trigger] s[i]).1 == 1 ==> s[i].0 >= 0,
    ensures
        units_sum(s) >= 0,
    decreases s.len(),
{
    if s.len() > 0 {
        lemma_units_sum_nonneg(s.drop_first());
    }
}

/// With no negative whole-number terms, every prefix units sum lies
/// between zero and the full units sum.
proof fn lemma_units_sum_take_bounds(s: Seq<(int, int)>, j: int)
    requires
        forall|i: int| 0 <= i < s.len() && (#[trigger] s[i]).1 == 1 ==> s[i].0 >= 0,
        0 <= j <= s.len(),
    ensures
        0 <= units_sum(s.take(j)) <= units_sum(s),
    decreases s.len() - j,
{
    lemma_units_sum_nonneg(s.take(j));
    if j == s.len() {
        assert(s.take(j) =~= s);
    } else {
        assert(s.take(j + 1) =~= s.take(j).push(s[j]));
        lemma_units_sum_push(s.take(j), s[j]);
        lemma_units_sum_take_bounds(s, j + 1);
    }
}

/// When the whole-number terms sum to zero and none of them could cancel
/// another (all are positive), there are none at all, and the fold keeps
/// the sequence as it is.
proof fn lemma_no_units_identity(s: Seq<(int, int)>)
    requires
        units_sum(s) == 0,
        forall|i: int| 0 <= i < s.len() && (#[trigger] s[i]).1 == 1 ==> s[i].0 >= 1,
    ensures
        non_units(s) == s,
    decreases s.len(),
{
    if s.len() > 0 {
        lemma_units_sum_nonneg(s.drop_first());
        assert(s[0].1 != 1);
        lemma_no_units_identity(s.drop_first());
        assert(non_units(s) =~= s);
    }
}

/// The units sum of a greedy decomposition is the integer part `n / d` of
/// the input: whole-number terms arise exactly while the fraction is at
/// least one.
pub proof fn lemma_greedy_units_sum(n: int, d: int)
    requires
        n >= 0,
        d > 0,
    ensures
        units_sum(greedy(n, d)) == n / d,
    decreases n,
{
    if n % d == 0 {
        assert(units_sum(greedy(n, d).drop_first()) == 0);
    } else if d % n == 0 {
        lemma_greedy_step_guards(n, d);
        assert(units_sum(greedy(n, d).drop_first()) == 0);
        vstd::arithmetic::div_mod::lemma_basic_div(n, d);
    } else {
        lemma_greedy_step(n, d);
        let k = d / n + 1;
        lemma_greedy_units_sum(n * k - d, d * k);
        assert(greedy(n, d).drop_first() =~= greedy(n * k - d, d * k));
        if k == 1 {
            // an improper fraction: the emitted term is the whole number 1
            vstd::arithmetic::div_mod::lemma_small_div_converse(d, n);
            vstd::arithmetic::div_mod::lemma_small_mod(d as nat, n as nat);
            assert(n * k - d == n - d && d * k == d) by (nonlinear_arith)
                requires
                    k == 1,
            ;
            vstd::arithmetic::div_mod::lemma_div_plus_one(n - d, d);
        } else {
            // a proper fraction: both n/d and the remainder round to zero
            lemma_fundamental_div_mod(d, n);
            lemma_mod_bound(d, n);
            assert(d >= n) by (nonlinear_arith)
                requires
                    d == n * (d / n) + d % n,
                    d / n >= 1,
                    d % n >= 0,
                    n >= 0,
            ;
            assert(d * k >= d) by (nonlinear_arith)
                requires
                    d > 0,
                    k >= 1,
            ;
            if n == d {
                vstd::arithmetic::div_mod::lemma_mod_multiples_basic(1, d);
                assert(n % d == 0);
            }
            vstd::arithmetic::div_mod::lemma_basic_div(n, d);
            vstd::arithmetic::div_mod::lemma_basic_div(n * k - d, d * k);
        }
    }
}

/// In the branch where n divides d but not the other way around, the
/// quotient d / n is at least 2.
proof fn lemma_greedy_step_guards(n: int, d: int)
    requires
        n >= 0,
        d > 0,
        n % d != 0,
        d % n == 0,
    ensures
        n >= 1,
        d / n >= 2,
        n < d,
    decreases n,
{
    if n == 0 {
        vstd::arithmetic::div_mod::lemma_small_mod(0nat, d as nat);
    }
    lemma_fundamental_div_mod(d, n);
    lemma_div_pos_is_pos(d, n);
    let q = d / n;
    if q == 0 {
        assert(n * 0 == 0) by (nonlinear_arith);
    }
    if q == 1 {
        assert(n * 1 == n) by (nonlinear_arith);
        vstd::arithmetic::div_mod::lemma_mod_multiples_basic(1, d);
        assert(n % d == 0);
    }
    assert(n * q >= 2 * n) by (nonlinear_arith)
        requires
            q >= 2,
            n >= 1,
    ;
}

/// Merges the whole-number terms: every term with stored denominator 1 is
/// removed, and when their numerators sum to a nonzero value a single term
/// `sum/1` is put in front of the remaining terms, whose order is kept.
pub fn fold_unitary_fractions(fractions: Vec<Fraction>) -> (r: Vec<Fraction>)
    requires
        forall|i: int|
            0 <= i <= vals(fractions@).len() ==> i128::MIN <= #[trigger] units_sum(
                vals(fractions@).take(i),
            ) <= i128::MAX,
    ensures
        vals(r@) == fold_units(vals(fractions@)),
{
    let ghost s = vals(fractions@);
    let mut sum: i128 = 0;
    let mut non_unit: Vec<Fraction> = Vec::new();
    let mut j: usize = 0;
    proof {
        assert(s.take(0) =~= Seq::<(int, int)>::empty());
        assert(vals(non_unit@) =~= non_units(s.take(0)));
    }
    while j < fractions.len()
        invariant
            s == vals(fractions@),
            j <= fractions@.len(),
            sum as int == units_sum(s.take(j as int)),
            vals(non_unit@) == non_units(s.take(j as int)),
            forall|i: int|
                0 <= i <= s.len() ==> i128::MIN <= #[trigger] units_sum(s.take(i)) <= i128::MAX,
        decreases fractions@.len() - j,
    {
        let f: Fraction = fractions[j];
        proof {
            assert(s.take(j + 1) =~= s.take(j as int).push(s[j as int]));
            lemma_units_sum_push(s.take(j as int), s[j as int]);
            lemma_non_units_push(s.take(j as int), s[j as int]);
            assert(i128::MIN <= units_sum(s.take(j + 1)) <= i128::MAX);
        }
        if f.is_unitary() {
            sum = sum + f.numerator;
        } else {
            let ghost before = vals(non_unit@);
            non_unit.push(f);
            proof {
                assert(vals(non_unit@) =~= before.push(f@));
            }
        }
        j = j + 1;
    }
    proof {
        assert(s.take(s.len() as int) =~= s);
    }
    if sum == 0 {
        non_unit
    } else {
        let mut bundled: Vec<Fraction> = Vec::new();
        bundled.push(Fraction { numerator: sum, denominator: 1 });
        let ghost head = vals(bundled@);
        proof {
            assert(head =~= seq![(sum as int, 1int)]);
        }
        bundled.append(&mut non_unit);
        proof {
            assert(vals(bundled@) =~= fold_units(s));
        }
        bundled
    }
}

/// The greedy decomposition, computed step by step. The accumulator always
/// holds the terms emitted so far, so the recursion of the original is
/// carried as a loop.
pub fn compute_egyptian_fraction(fraction: Fraction) -> (r: Option<Vec<Fraction>>)
    requires
        fraction@.0 >= 0,
        fraction@.1 > 0,
        fits(fraction@.0, fraction@.1),
    ensures
        r matches Some(v) && vals(v@) == greedy(fraction@.0, fraction@.1),
{
    let mut fractions: Vec<Fraction> = Vec::new();
    let mut n: i128 = fraction.numerator;
    let mut d: i128 = fraction.denominator;
    loop
        invariant
            n >= 0,
            d > 0,
            fits(n as int, d as int),
            vals(fractions@) + greedy(n as int, d as int) == greedy(fraction@.0, fraction@.1),
        decreases n,
    {
        if n % d == 0 {
            let ghost before = vals(fractions@);
            let q: i128 = n / d;
            proof {
                lemma_div_nonincreasing(n as int, d as int);
                lemma_div_pos_is_pos(n as int, d as int);
            }
            fractions.push(Fraction { numerator: q, denominator: 1 });
            proof {
                assert(vals(fractions@) =~= before + greedy(n as int, d as int));
            }
            return Some(fractions);
        }
        proof {
            vstd::arithmetic::div_mod::lemma_small_mod(0nat, d as nat);
            assert(n != 0);
        }
        if d % n == 0 {
            let ghost before = vals(fractions@);
            let q: i128 = d / n;
            proof {
                lemma_div_nonincreasing(d as int, n as int);
                lemma_div_pos_is_pos(d as int, n as int);
            }
            fractions.push(Fraction { numerator: 1, denominator: q });
            proof {
                assert(vals(fractions@) =~= before + greedy(n as int, d as int));
            }
            return Some(fractions);
        }
        proof {
            lemma_greedy_step(n as int, d as int);
            lemma_div_is_ordered_by_denominator(d as int, 2, n as int);
            lemma_div_is_ordered(d as int, i128::MAX as int, 2);
        }
        let ghost before = vals(fractions@);
        let ghost old_n = n as int;
        let ghost old_d = d as int;
        let k: i128 = d / n + 1;
        fractions.push(Fraction { numerator: 1, denominator: k });
        let remainder: i128 = d % n;
        n = n - remainder;
        d = d * k;
        proof {
            assert(vals(fractions@) + greedy(n as int, d as int) =~= before + greedy(
                old_n,
                old_d,
            ));
        }
    }
}

/// The full decomposition: the greedy terms with their whole-number terms
/// folded into one leading term. A zero numerator yields nothing, which is
/// reported as an absent result.
pub fn egyptian_fraction(fraction: Fraction) -> (r: Option<Vec<Fraction>>)
    requires
        fraction@.0 >= 0,
        fraction@.1 > 0,
        fits(fraction@.0, fraction@.1),
    ensures
        fraction@.0 == 0 ==> r is None,
        fraction@.0 > 0 ==> (r matches Some(v) && vals(v@) == fold_units(
            greedy(fraction@.0, fraction@.1),
        ) && v@.len() > 0),
{
    let ghost n = fraction@.0;
    let ghost d = fraction@.1;
    let computed: Option<Vec<Fraction>> = compute_egyptian_fraction(fraction);
    match computed {
        None => None,
        Some(f) => {
            let ghost s = greedy(n, d);
            proof {
                lemma_greedy_terms(n, d);
                lemma_greedy_units_sum(n, d);
                lemma_div_pos_is_pos(n, d);
                lemma_div_nonincreasing(n, d);
                assert forall|i: int| 0 <= i <= vals(f@).len() implies i128::MIN <= #[trigger] units_sum(
                    vals(f@).take(i),
                ) <= i128::MAX by {
                    lemma_units_sum_take_bounds(s, i);
                }
            }
            let folded: Vec<Fraction> = fold_unitary_fractions(f);
            proof {
                if n == 0 {
                    vstd::arithmetic::div_mod::lemma_small_mod(0nat, d as nat);
                    vstd::arithmetic::div_mod::lemma_basic_div(0, d);
                    assert(s =~= seq![(0int, 1int)]);
                    assert(s.drop_first() =~= Seq::<(int, int)>::empty());
                    assert(units_sum(s) == 0);
                    assert(non_units(s.drop_first()) =~= Seq::<(int, int)>::empty());
                    assert(non_units(s) =~= Seq::<(int, int)>::empty());
                    assert(vals(folded@) =~= non_units(s));
                } else {
                    if units_sum(s) == 0 {
                        lemma_no_units_identity(s);
                    }
                    assert(fold_units(s).len() > 0);
                    assert(vals(folded@).len() == folded@.len());
                }
            }
            if folded.is_empty() {
                None
            } else {
                Some(folded)
            }
        },
    }
}

/// Exact rational addition over pairs, on a common denominator and without
/// reduction.
pub open spec fn frac_add(a: (int, int), b: (int, int)) -> (int, int) {
    (a.0 * b.1 + b.0 * a.1, a.1 * b.1)
}

/// The exact rational sum of a sequence of pairs; the empty sum is 0/1.
pub open spec fn seq_sum(s: Seq<(int, int)>) -> (int, int)
    decreases s.len(),
{
    if s.len() == 0 {
        (0int, 1int)
    } else {
        frac_add(s[0], seq_sum(s.drop_first()))
    }
}

/// Equality of pairs as rational numbers, by cross-multiplication.
pub open spec fn frac_eq(a: (int, int), b: (int, int)) -> bool {
    a.0 * b.1 == b.0 * a.1
}

/// A sum of terms with positive denominators has a positive denominator.
proof fn lemma_seq_sum_pos_den(s: Seq<(int, int)>)
    requires
        forall|i: int| 0 <= i < s.len() ==> (#[trigger] s[i]).1 >= 1,
    ensures
        seq_sum(s).1 >= 1,
    decreases s.len(),
{
    if s.len() > 0 {
        lemma_seq_sum_pos_den(s.drop_first());
        assert(s[0].1 * seq_sum(s.drop_first()).1 >= 1) by (nonlinear_arith)
            requires
                s[0].1 >= 1,
                seq_sum(s.drop_first()).1 >= 1,
        ;
    }
}

/// Two pairs equal as rationals to a third with a nonzero denominator are
/// equal as rationals to each other.
proof fn lemma_frac_eq_trans_shared(a: (int, int), b: (int, int), c: (int, int))
    requires
        frac_eq(a, b),
        frac_eq(a, c),
        a.1 != 0,
    ensures
        frac_eq(b, c),
{
    assert(b.0 * c.1 == c.0 * b.1) by (nonlinear_arith)
        requires
            a.0 * b.1 == b.0 * a.1,
            a.0 * c.1 == c.0 * a.1,
            a.1 != 0,
    ;
}

/// The greedy terms of n/d sum to exactly n/d, as rational numbers.
pub proof fn lemma_greedy_sum(n: int, d: int)
    requires
        n >= 0,
        d > 0,
    ensures
        frac_eq(seq_sum(greedy(n, d)), (n, d)),
    decreases n,
{
    vstd::arithmetic::div_mod::lemma_small_mod(0nat, d as nat);
    if n % d == 0 {
        lemma_fundamental_div_mod(n, d);
        assert(greedy(n, d) == seq![(n / d, 1int)]);
        assert(greedy(n, d).drop_first() =~= Seq::<(int, int)>::empty());
        assert(seq_sum(greedy(n, d).drop_first()) == (0int, 1int));
        assert(seq_sum(greedy(n, d)) == frac_add((n / d, 1int), (0int, 1int)));
        assert(d * (n / d) == n);
        assert(((n / d) * 1 + 0 * 1) * d == n * (1 * 1)) by (nonlinear_arith)
            requires
                d * (n / d) == n,
        ;
        assert(frac_eq(seq_sum(greedy(n, d)), (n, d)));
    } else if d % n == 0 {
        lemma_fundamental_div_mod(d, n);
        assert(greedy(n, d) == seq![(1int, d / n)]);
        assert(greedy(n, d).drop_first() =~= Seq::<(int, int)>::empty());
        assert(seq_sum(greedy(n, d).drop_first()) == (0int, 1int));
        assert(seq_sum(greedy(n, d)) == frac_add((1int, d / n), (0int, 1int)));
        assert(n * (d / n) == d);
        assert((1 * 1 + 0 * (d / n)) * d == n * ((d / n) * 1)) by (nonlinear_arith)
            requires
                n * (d / n) == d,
        ;
        assert(frac_eq(seq_sum(greedy(n, d)), (n, d)));
    } else {
        lemma_greedy_step(n, d);
        let k = d / n + 1;
        lemma_greedy_sum(n * k - d, d * k);
        assert(greedy(n, d).drop_first() =~= greedy(n * k - d, d * k));
        let rest = seq_sum(greedy(n * k - d, d * k));
        let p = rest.0;
        let q = rest.1;
        assert((1 * q + p * k) * d == n * (k * q)) by (nonlinear_arith)
            requires
                p * (d * k) == (n * k - d) * q,
        ;
    }
}

/// Rational equality is preserved when the same term is added on both
/// sides.
proof fn lemma_frac_add_congruence(x: (int, int), b: (int, int), c: (int, int))
    requires
        frac_eq(b, c),
    ensures
        frac_eq(frac_add(x, b), frac_add(x, c)),
{
    assert((x.0 * b.1 + b.0 * x.1) * (x.1 * c.1) == x.0 * (b.1 * (x.1 * c.1)) + x.1 * x.1 * (b.0
        * c.1)) by (nonlinear_arith);
    assert((x.0 * c.1 + c.0 * x.1) * (x.1 * b.1) == x.0 * (c.1 * (x.1 * b.1)) + x.1 * x.1 * (c.0
        * b.1)) by (nonlinear_arith);
    assert(x.0 * (b.1 * (x.1 * c.1)) == x.0 * (c.1 * (x.1 * b.1))) by (nonlinear_arith);
    assert(b.0 * c.1 == c.0 * b.1);
}

/// Adding a whole-number term commutes, as pairs, with adding any other
/// term.
proof fn lemma_frac_add_exchange(x: (int, int), w: int, sn: (int, int))
    ensures
        frac_add(x, frac_add((w, 1int), sn)) == frac_add((w, 1int), frac_add(x, sn)),
{
    assert(x.0 * (1 * sn.1) + (w * sn.1 + sn.0 * 1) * x.1 == w * (x.1 * sn.1) + (x.0 * sn.1 + sn.0
        * x.1) * 1) by (nonlinear_arith);
    assert(x.1 * (1 * sn.1) == 1 * (x.1 * sn.1)) by (nonlinear_arith);
}

/// Folding does not change the rational sum: the sum of a sequence equals
/// its units sum over 1 plus the sum of its non-unit terms.
proof fn lemma_fold_sum(s: Seq<(int, int)>)
    ensures
        frac_eq(seq_sum(s), frac_add((units_sum(s), 1int), seq_sum(non_units(s)))),
    decreases s.len(),
{
    if s.len() > 0 {
        let x = s[0];
        let t = s.drop_first();
        lemma_fold_sum(t);
        let st = seq_sum(t);
        let cu = units_sum(t);
        let sn = seq_sum(non_units(t));
        let u = sn.0;
        let v = sn.1;
        lemma_frac_add_congruence(x, st, frac_add((cu, 1int), sn));
        assert(seq_sum(s) == frac_add(x, st));
        if x.1 == 1 {
            assert(units_sum(s) == x.0 + cu);
            assert(non_units(s) == non_units(t));
            // absorbing a whole-number head into the units term
            assert(x.0 * (1 * v) + (cu * v + u * 1) * x.1 == (x.0 + cu) * v + u * 1)
                by (nonlinear_arith)
                requires
                    x.1 == 1,
            ;
            assert(x.1 * (1 * v) == 1 * v);
            assert(frac_add(x, frac_add((cu, 1int), sn)) == frac_add((x.0 + cu, 1int), sn));
        } else {
            assert(non_units(s).drop_first() =~= non_units(t));
            assert(seq_sum(non_units(s)) == frac_add(x, sn));
            assert(units_sum(s) == 0 + cu);
            lemma_frac_add_exchange(x, cu, sn);
        }
    }
}

/// The sum of the full decomposition of a proper fraction n/d, evaluated
/// as exact rational arithmetic, equals n/d.
pub proof fn lemma_decomposition_sums_to_input(n: int, d: int)
    requires
        0 < n,
        0 < d,
        n < d,
    ensures
        frac_eq(seq_sum(fold_units(greedy(n, d))), (n, d)),
{
    let s = greedy(n, d);
    lemma_greedy_sum(n, d);
    lemma_fold_sum(s);
    lemma_greedy_terms(n, d);
    lemma_seq_sum_pos_den(s);
    let mid = frac_add((units_sum(s), 1int), seq_sum(non_units(s)));
    if units_sum(s) == 0 {
        let su = seq_sum(s);
        let xu = seq_sum(non_units(s));
        assert(su.0 * (1 * xu.1) == (0 * xu.1 + xu.0 * 1) * su.1);
        assert(su.0 * xu.1 == xu.0 * su.1) by (nonlinear_arith)
            requires
                su.0 * (1 * xu.1) == (0 * xu.1 + xu.0 * 1) * su.1,
        ;
        assert(frac_eq(seq_sum(s), seq_sum(fold_units(s))));
    } else {
        assert(fold_units(s).drop_first() =~= non_units(s));
        assert(seq_sum(fold_units(s)) == mid);
    }
    lemma_frac_eq_trans_shared(seq_sum(s), (n, d), seq_sum(fold_units(s)));
}

/// A sequence without stored-denominator-1 terms folds to itself.
pub proof fn lemma_fold_unit_free(s: Seq<(int, int)>)
    requires
        forall|i: int| 0 <= i < s.len() ==> (#[trigger] s[i]).1 != 1,
    ensures
        units_sum(s) == 0,
        non_units(s) == s,
        fold_units(s) == s,
    decreases s.len(),
{
    if s.len() > 0 {
        lemma_fold_unit_free(s.drop_first());
        assert(non_units(s) =~= s);
    }
}

/// No term kept by `non_units` has stored denominator 1.
proof fn lemma_non_units_unit_free(s: Seq<(int, int)>)
    ensures
        forall|i: int| 0 <= i < non_units(s).len() ==> (#[trigger] non_units(s)[i]).1 != 1,
    decreases s.len(),
{
    if s.len() > 0 {
        lemma_non_units_unit_free(s.drop_first());
        if s[0].1 != 1 {
            assert forall|i: int| 0 <= i < non_units(s).len() implies (#[trigger] non_units(
                s,
            )[i]).1 != 1 by {
                if i > 0 {
                    assert(non_units(s)[i] == non_units(s.drop_first())[i - 1]);
                }
            }
        }
    }
}

/// With a nonzero units sum, folding yields exactly one leading
/// whole-number term carrying that sum, followed by the non-unit terms in
/// their original order.
pub proof fn lemma_fold_units_merges(s: Seq<(int, int)>)
    requires
        units_sum(s) != 0,
    ensures
        fold_units(s).len() == non_units(s).len() + 1,
        fold_units(s)[0] == (units_sum(s), 1int),
        fold_units(s).skip(1) == non_units(s),
{
    assert(fold_units(s).skip(1) =~= non_units(s));
}

/// Folding a second time changes nothing.
pub proof fn lemma_fold_units_idempotent(s: Seq<(int, int)>)
    ensures
        fold_units(fold_units(s)) == fold_units(s),
{
    lemma_non_units_unit_free(s);
    lemma_fold_unit_free(non_units(s));
    if units_sum(s) != 0 {
        let f = fold_units(s);
        assert(f.drop_first() =~= non_units(s));
        assert(units_sum(f) == units_sum(s));
        assert(non_units(f) =~= non_units(s));
    }
}

/// When n divides d (and d does not divide n except when they are equal),
/// the decomposition is the single unit term 1/(d/n).
pub proof fn lemma_single_unit_term(n: int, d: int)
    requires
        1 <= n,
        0 < d,
        d % n == 0,
    ensures
        fold_units(greedy(n, d)) == seq![(1int, d / n)],
    decreases n,
{
    lemma_fundamental_div_mod(d, n);
    lemma_div_pos_is_pos(d, n);
    if n % d == 0 {
        // both divide: the fraction is exactly 1, rendered as 1/1
        lemma_fundamental_div_mod(n, d);
        lemma_div_pos_is_pos(n, d);
        assert(n == d) by (nonlinear_arith)
            requires
                n == d * (n / d),
                d == n * (d / n),
                n >= 1,
                d >= 1,
                n / d >= 0,
                d / n >= 0,
        ;
        vstd::arithmetic::div_mod::lemma_div_by_self(d);
        assert(greedy(n, d) =~= seq![(1int, 1int)]);
        assert(greedy(n, d).drop_first() =~= Seq::<(int, int)>::empty());
        assert(units_sum(Seq::<(int, int)>::empty()) == 0);
        assert(non_units(Seq::<(int, int)>::empty()) =~= Seq::<(int, int)>::empty());
        assert(units_sum(greedy(n, d)) == 1);
        assert(non_units(greedy(n, d)) =~= Seq::<(int, int)>::empty());
        assert(fold_units(greedy(n, d)) =~= seq![(1int, d / n)]);
    } else {
        lemma_greedy_step_guards(n, d);
        assert(greedy(n, d) =~= seq![(1int, d / n)]);
        assert(greedy(n, d).drop_first() =~= Seq::<(int, int)>::empty());
        assert(units_sum(Seq::<(int, int)>::empty()) == 0);
        assert(units_sum(greedy(n, d)) == 0);
        lemma_fold_unit_free(greedy(n, d));
    }
}

/// When d divides n, the decomposition is the single whole-number term
/// (n/d)/1.
pub proof fn lemma_single_whole_term(n: int, d: int)
    requires
        1 <= n,
        0 < d,
        n % d == 0,
    ensures
        fold_units(greedy(n, d)) == seq![(n / d, 1int)],
{
    lemma_greedy_terms(n, d);
    assert(greedy(n, d)[0] == (n / d, 1int));
    assert(greedy(n, d).drop_first() =~= Seq::<(int, int)>::empty());
    assert(units_sum(Seq::<(int, int)>::empty()) == 0);
    assert(non_units(Seq::<(int, int)>::empty()) =~= Seq::<(int, int)>::empty());
    assert(units_sum(greedy(n, d)) == n / d);
    assert(greedy(n, d)[0].0 >= 1);
    assert(non_units(greedy(n, d)) =~= Seq::<(int, int)>::empty());
    assert(fold_units(greedy(n, d)) =~= seq![(n / d, 1int)]);
}

/// The rendered terms joined with `" + "`.
pub open spec fn notation_text(terms: Seq<(int, int)>) -> Seq<char>
    decreases terms.len(),
{
    if terms.len() == 0 {
        Seq::empty()
    } else if terms.len() == 1 {
        display_text(terms[0])
    } else {
        display_text(terms[0]) + seq![' ', '+', ' '] + notation_text(terms.drop_first())
    }
}

/// Joining one more term appends a separator (except to an empty text)
/// and the term's rendering.
proof fn lemma_notation_push(s: Seq<(int, int)>, x: (int, int))
    ensures
        notation_text(s.push(x)) == if s.len() == 0 {
            display_text(x)
        } else {
            notation_text(s) + seq![' ', '+', ' '] + display_text(x)
        },
    decreases s.len(),
{
    if s.len() == 0 {
        assert(s.push(x)[0] == x);
        assert(notation_text(s.push(x)) =~= display_text(x));
    } else {
        assert(s.push(x).drop_first() =~= s.drop_first().push(x));
        lemma_notation_push(s.drop_first(), x);
        assert(notation_text(s.push(x)) =~= notation_text(s) + seq![' ', '+', ' ']
            + display_text(x));
    }
}

/// Renders the folded decomposition of the fraction, the terms joined with
/// `" + "`; when the decomposition is absent (a zero numerator), a fixed
/// failure message is returned instead.
pub fn to_egyptian_fraction_notation(fraction: Fraction) -> (r: String)
    requires
        fraction@.0 >= 0,
        fraction@.1 > 0,
        fits(fraction@.0, fraction@.1),
    ensures
        fraction@.0 == 0 ==> r@ == "Egyptian Fraction couldn't be computed"@,
        fraction@.0 > 0 ==> r@ == notation_text(fold_units(greedy(fraction@.0, fraction@.1))),
{
    let result: Option<Vec<Fraction>> = egyptian_fraction(fraction);
    match result {
        None => String::from_str("Egyptian Fraction couldn't be computed"),
        Some(fractions) => {
            let ghost terms = vals(fractions@);
            let mut out: String = String::new();
            let mut i: usize = 0;
            proof {
                assert(terms.take(0) =~= Seq::<(int, int)>::empty());
            }
            while i < fractions.len()
                invariant
                    terms == vals(fractions@),
                    i <= fractions@.len(),
                    terms.len() == fractions@.len(),
                    out@ == notation_text(terms.take(i as int)),
                decreases fractions@.len() - i,
            {
                if i > 0 {
                    proof {
                        reveal_strlit(" + ");
                    }
                    out.append(" + ");
                }
                let piece: String = fractions[i].display();
                out.append(piece.as_str());
                proof {
                    assert(terms.take(i + 1) =~= terms.take(i as int).push(terms[i as int]));
                    lemma_notation_push(terms.take(i as int), terms[i as int]);
                    assert(out@ =~= notation_text(terms.take(i + 1)));
                }
                i = i + 1;
            }
            proof {
                assert(terms.take(terms.len() as int) =~= terms);
            }
            out
        },
    }
}

} // verus!
