use egyptian_fractions::egyptian_fraction::{
    egyptian_fraction, fold_unitary_fractions, to_egyptian_fraction_notation,
};
use egyptian_fractions::fraction::Fraction;

fn gcd(a: i128, b: i128) -> i128 {
    let (mut x, mut y) = (a.abs(), b.abs());
    while y != 0 {
        let r = x % y;
        x = y;
        y = r;
    }
    x
}

/// Adds two fractions exactly, keeping the result reduced so that the
/// intermediate values stay within 128 bits.
fn add_reduced(a: (i128, i128), b: (i128, i128)) -> (i128, i128) {
    let g = gcd(a.1, b.1);
    let lcm = a.1 / g * b.1;
    let num = a.0 * (lcm / a.1) + b.0 * (lcm / b.1);
    let ng = gcd(num, lcm);
    if ng == 0 {
        (0, 1)
    } else {
        (num / ng, lcm / ng)
    }
}

#[test]
fn test_fold_unitary_fractions_empty() {
    let fractions = vec![];
    let result = fold_unitary_fractions(fractions);
    assert!(result.is_empty());
}

#[test]
fn test_fold_unitary_fractions_only_unitary() {
    let fractions = vec![
        Fraction {
            numerator: 1,
            denominator: 1,
        },
        Fraction {
            numerator: 1,
            denominator: 1,
        },
    ];
    let expected = vec![Fraction {
        numerator: 2,
        denominator: 1,
    }];
    let result = fold_unitary_fractions(fractions);
    assert_eq!(result, expected);
}

#[test]
fn test_fold_unitary_fractions_mixed() {
    let fractions = vec![
        Fraction {
            numerator: 1,
            denominator: 1,
        },
        Fraction {
            numerator: 1,
            denominator: 2,
        },
        Fraction {
            numerator: 1,
            denominator: 1,
        },
        Fraction {
            numerator: 1,
            denominator: 3,
        },
    ];
    let expected = vec![
        Fraction {
            numerator: 2,
            denominator: 1,
        },
        Fraction {
            numerator: 1,
            denominator: 2,
        },
        Fraction {
            numerator: 1,
            denominator: 3,
        },
    ];
    let result = fold_unitary_fractions(fractions);
    assert_eq!(result, expected);
}

#[test]
fn test_egyptian_fraction_valid() {
    let fraction = Fraction {
        numerator: 2,
        denominator: 3,
    };
    let result = egyptian_fraction(fraction);
    assert!(result.is_some());

    // check result is 1/2 and 1/6
    let expected = vec![
        Fraction {
            numerator: 1,
            denominator: 2,
        },
        Fraction {
            numerator: 1,
            denominator: 6,
        },
    ];
    assert_eq!(result.unwrap(), expected);
}

#[test]
fn test_egyptian_fraction_invalid() {
    let fraction = Fraction {
        numerator: 0,
        denominator: 1,
    };
    let result = egyptian_fraction(fraction);
    println!("{:?}", result);
    assert!(result.is_none());
}

#[test]
fn test_to_egyptian_fraction() {
    let fraction = Fraction {
        numerator: 2,
        denominator: 5,
    };
    assert_eq!(to_egyptian_fraction_notation(fraction), "1/3 + 1/15");
}

#[test]
fn test_fold_without_unitary_terms_is_identity() {
    let fractions = vec![
        Fraction {
            numerator: 1,
            denominator: 2,
        },
        Fraction {
            numerator: 1,
            denominator: 3,
        },
    ];
    let result = fold_unitary_fractions(fractions.clone());
    assert_eq!(result, fractions);
}

#[test]
fn test_decomposition_sums_to_input() {
    // 5/121 decomposes into unit fractions whose exact sum is 5/121
    let fraction = Fraction {
        numerator: 5,
        denominator: 121,
    };
    let terms = egyptian_fraction(fraction).unwrap();
    let mut sum: (i128, i128) = (0, 1);
    for term in &terms {
        assert_eq!(term.numerator, 1);
        sum = add_reduced(sum, (term.numerator, term.denominator));
    }
    assert_eq!(sum, (5, 121));
}

#[test]
fn test_zero_numerator_absent_for_many_denominators() {
    for d in 1..50 {
        let fraction = Fraction {
            numerator: 0,
            denominator: d,
        };
        assert!(egyptian_fraction(fraction).is_none());
    }
}

#[test]
fn test_single_unit_term_when_numerator_divides() {
    // 3 divides 12: exactly one term, 1/(12/3)
    let result = egyptian_fraction(Fraction {
        numerator: 3,
        denominator: 12,
    })
    .unwrap();
    assert_eq!(result.len(), 1);
    assert_eq!(result[0].numerator, 1);
    assert_eq!(result[0].denominator, 4);

    // equal numerator and denominator: the single term 1/1
    let one = egyptian_fraction(Fraction {
        numerator: 7,
        denominator: 7,
    })
    .unwrap();
    assert_eq!(one.len(), 1);
    assert_eq!(one[0].numerator, 1);
    assert_eq!(one[0].denominator, 1);
}

#[test]
fn test_single_whole_term_when_denominator_divides() {
    // 3 divides 12: exactly one term, (12/3)/1
    let result = egyptian_fraction(Fraction {
        numerator: 12,
        denominator: 3,
    })
    .unwrap();
    assert_eq!(result.len(), 1);
    assert_eq!(result[0].numerator, 4);
    assert_eq!(result[0].denominator, 1);
}

#[test]
fn test_improper_fraction_merges_whole_part() {
    // 5/3 = 1 + 1/2 + 1/6, with the whole part folded in front
    let fraction = Fraction {
        numerator: 5,
        denominator: 3,
    };
    let terms = egyptian_fraction(fraction).unwrap();
    assert_eq!(terms[0].numerator, 1);
    assert_eq!(terms[0].denominator, 1);
    assert_eq!(to_egyptian_fraction_notation(fraction), "1 + 1/2 + 1/6");

    let mut sum: (i128, i128) = (0, 1);
    for term in &terms {
        sum = add_reduced(sum, (term.numerator, term.denominator));
    }
    assert_eq!(sum, (5, 3));
}

#[test]
fn test_notation_absent() {
    let fraction = Fraction {
        numerator: 0,
        denominator: 1,
    };
    assert_eq!(
        to_egyptian_fraction_notation(fraction),
        "Egyptian Fraction couldn't be computed"
    );
}
