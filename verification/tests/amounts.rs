use std::str::FromStr;

use csv2ledger::amount::amount_to_text;
use csv2ledger::amount::parse_amount;
use csv2ledger::amount::Amount;
use rust_decimal::Decimal;

fn round_trips(a: Amount) {
    let text = amount_to_text(&a);
    let back = parse_amount(text.as_str()).expect("canonical text must parse");
    assert_eq!(back, a);
}

#[test]
fn amount_round_trip_keeps_exact_values() {
    round_trips(Amount { negative: false, mantissa: 12550, scale: 2 });
    round_trips(Amount { negative: true, mantissa: 12550, scale: 2 });
    round_trips(Amount { negative: false, mantissa: 0, scale: 0 });
    round_trips(Amount { negative: false, mantissa: 0, scale: 2 });
    round_trips(Amount { negative: true, mantissa: 0, scale: 2 });
    round_trips(Amount { negative: false, mantissa: 5, scale: 2 });
    round_trips(Amount { negative: true, mantissa: 5, scale: 28 });
    round_trips(Amount { negative: false, mantissa: (1u128 << 96) - 1, scale: 0 });
    round_trips(Amount { negative: true, mantissa: (1u128 << 96) - 1, scale: 28 });
}

#[test]
fn amount_text_matches_decimal_canonical_form() {
    let cases: &[(&str, Amount)] = &[
        ("-125.50", Amount { negative: true, mantissa: 12550, scale: 2 }),
        ("125.50", Amount { negative: false, mantissa: 12550, scale: 2 }),
        ("0.05", Amount { negative: false, mantissa: 5, scale: 2 }),
        ("-0.05", Amount { negative: true, mantissa: 5, scale: 2 }),
        ("3201.12", Amount { negative: false, mantissa: 320112, scale: 2 }),
        ("0", Amount { negative: false, mantissa: 0, scale: 0 }),
        ("7", Amount { negative: false, mantissa: 7, scale: 0 }),
        ("10.000", Amount { negative: false, mantissa: 10000, scale: 3 }),
    ];
    for (text, amount) in cases {
        assert_eq!(amount_to_text(amount), *text);
        let d = Decimal::from_str(text).expect("decimal parses");
        assert_eq!(d.to_string(), *text);
        assert_eq!(d.mantissa().unsigned_abs(), amount.mantissa);
        assert_eq!(d.scale(), amount.scale);
        assert_eq!(d.is_sign_negative(), amount.negative);
    }
}

#[test]
fn parse_accepts_what_the_grammar_allows() {
    assert_eq!(
        parse_amount("00.50"),
        Some(Amount { negative: false, mantissa: 50, scale: 2 })
    );
    assert_eq!(
        parse_amount("-1"),
        Some(Amount { negative: true, mantissa: 1, scale: 0 })
    );
}

#[test]
fn parse_rejects_malformed_text() {
    assert_eq!(parse_amount(""), None);
    assert_eq!(parse_amount("-"), None);
    assert_eq!(parse_amount("."), None);
    assert_eq!(parse_amount(".5"), None);
    assert_eq!(parse_amount("5."), None);
    assert_eq!(parse_amount("1.2.3"), None);
    assert_eq!(parse_amount("12a"), None);
    assert_eq!(parse_amount("1 2"), None);
    assert_eq!(parse_amount("--1"), None);
    assert_eq!(parse_amount("1-"), None);
}

#[test]
fn parse_rejects_out_of_range_values() {
    // One above the largest 96-bit mantissa.
    assert_eq!(parse_amount("79228162514264337593543950336"), None);
    // Largest mantissa itself still parses.
    assert_eq!(
        parse_amount("79228162514264337593543950335"),
        Some(Amount { negative: false, mantissa: (1u128 << 96) - 1, scale: 0 })
    );
    // A scale of 29 is beyond range.
    assert_eq!(parse_amount("0.00000000000000000000000000001"), None);
    assert_eq!(
        parse_amount("0.0000000000000000000000000001"),
        Some(Amount { negative: false, mantissa: 1, scale: 28 })
    );
}

#[test]
fn negation_is_exact() {
    let a = Amount { negative: false, mantissa: 12550, scale: 2 };
    let n = a.neg();
    assert_eq!(n, Amount { negative: true, mantissa: 12550, scale: 2 });
    assert_eq!(n.neg(), a);
    let z = Amount { negative: false, mantissa: 0, scale: 2 };
    assert_eq!(amount_to_text(&z.neg()), "-0.00");
}

#[test]
fn amount_new_checks_ranges() {
    assert!(Amount::new(false, 1u128 << 96, 0).is_none());
    assert!(Amount::new(false, (1u128 << 96) - 1, 28).is_some());
    assert!(Amount::new(false, 1, 29).is_none());
}
