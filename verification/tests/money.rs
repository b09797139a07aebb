use accounters_lib::data::money::{Amount, Currency, Number, NumberAlignment};

use std::str::FromStr;

#[test]
fn money_parsing() {
    let first_amount = Amount::from_str("128.5430 EUR, -67.0004 PUM, 0.000 FOG");
    let second_amount = Amount::from_str("4 EUR 2 USD");
    let third_amount = Amount::from_str("45 EUR, 12 SEK, 11 EUR");

    println!("{:?}", second_amount);

    assert_eq!(
        Ok(Amount::from_str("128.543 EUR, -67.0004 PUM").unwrap()),
        first_amount
    );
    assert!(second_amount.is_err());
    assert!(third_amount.is_err());

    assert_eq!(
        Number {
            value: 174534,
            n_decimals: 3
        },
        Number::from_str("174.534").unwrap()
    );
    assert_eq!(
        Number {
            value: 534,
            n_decimals: 3
        },
        Number::from_str("0.534").unwrap()
    );
    assert_eq!(
        Number {
            value: 4,
            n_decimals: 3
        },
        Number::from_str("0.00400").unwrap()
    );
}

#[test]
fn money_adding() {
    let first_amount = Amount::from_str("42.1 EUR, 92 USD, 150.00 SEK").unwrap();
    let second_amount = Amount::from_str("200.23 SEK, -100 USD, 15 PLN").unwrap();
    let final_amount = first_amount.add(&second_amount);

    assert_eq!(
        Amount::from_str("42.1 EUR, -8 USD, 350.23 SEK, 15 PLN").unwrap(),
        final_amount
    );
}

#[test]
fn zeroing() {
    let first_amount = Amount::from_str("243.3 EUR, 58 SEK").unwrap();
    let second_amount = Amount::from_str("-97.12 EUR, 23 SEK, 15 USD").unwrap();
    let third_amount = Amount::from_str("-146.18 EUR, -5 SEK").unwrap();

    let final_amount = first_amount.add(&second_amount).add(&third_amount);
    assert_eq!(Amount::from_str("15 USD, 76 SEK").unwrap(), final_amount);
}

#[test]
fn substraction() {
    let first_amount = Amount::from_str("132 EUR, 34.2 USD, -43.2 SEK").unwrap();
    let second_amount = Amount::from_str("64 EUR, 34.2 USD, -85 SEK, 103 PLN").unwrap();
    let final_amount = first_amount.sub(&second_amount);

    assert_eq!(
        Amount::from_str("68 EUR, 41.8 SEK, -103 PLN").unwrap(),
        final_amount
    );
}

#[test]
fn money_addition() {
    let amount = Number::from_str("154.32")
        .unwrap()
        .add(Number::from_str("200.023").unwrap());
    assert_eq!(Number::from_str("354.343").unwrap(), amount);

    let amount = Number::from_str("227")
        .unwrap()
        .add(Number::from_str("-531.276").unwrap());
    assert_eq!(Number::from_str("-304.276").unwrap(), amount);
}

#[test]
fn printing() {
    assert_eq!(
        (
            String::from("-"),
            String::from("123,456"),
            String::from("425")
        ),
        Number::from_str("-123456.425").unwrap().get_strings()
    );
    assert_eq!(
        (String::from(""), String::from(""), String::from("43")),
        Number::from_str("0.43").unwrap().get_strings()
    );
    assert_eq!(
        (String::from(""), String::from(""), String::from("0017")),
        Number::from_str("0.0017").unwrap().get_strings()
    );
}

#[test]
fn number_text_round_trip() {
    let n = Number::from_str("0.00400").unwrap();
    assert_eq!("0.004", n.to_text());
    assert_eq!(n, Number::from_str(&n.to_text()).unwrap());

    let m = Number::from_str("354.343").unwrap();
    assert_eq!("354.343", m.to_text());
    assert_eq!(m, Number::from_str(&m.to_text()).unwrap());

    let z = Number::from_str("0").unwrap();
    assert_eq!("0.00", z.to_text());
    assert_eq!(z, Number::from_str(&z.to_text()).unwrap());

    assert_eq!("-123,456.425", Number::from_str("-123456.425").unwrap().to_text());
}

#[test]
fn number_parse_quirks() {
    // the comma wins over the dot as the decimal separator
    assert_eq!(
        Number {
            value: 15,
            n_decimals: 1
        },
        Number::from_str("1,5").unwrap()
    );
    assert!(Number::from_str("1,5.7").is_err());
    // unreadable integer parts are rejected
    assert!(Number::from_str("abc").is_err());
    assert!(Number::from_str("").is_err());
    assert!(Number::from_str(".5").is_err());
    // trailing fractional zeros never contribute scale
    assert_eq!(
        Number {
            value: 1,
            n_decimals: 0
        },
        Number::from_str("1.000").unwrap()
    );
    // equal magnitude at unequal scale is a different value
    assert_ne!(
        Number::from_str("1.5").unwrap(),
        Number {
            value: 150,
            n_decimals: 2
        }
    );
}

#[test]
fn number_predicates() {
    let n = Number::from_str("-3.5").unwrap();
    assert!(!n.is_zero());
    assert!(!n.is_nonnegative());
    assert!(n.neg().is_nonnegative());
    assert!(Number::from_str("0.000").unwrap().is_zero());
    assert!(Number::default().is_zero());
}

#[test]
fn amount_additive_identity() {
    let a = Amount::from_str("42.1 EUR, -8 USD").unwrap();
    assert_eq!(a.duplicate().add(&Amount::default()), a);
    assert!(a.duplicate().add(&a.neg()).is_zero());
    assert!(Amount::default().is_zero());
}

#[test]
fn amount_queries() {
    let a = Amount::from_str("42.1 EUR, -8 USD").unwrap();
    assert_eq!(2, a.currencies().len());
    assert_eq!(
        Number {
            value: 421,
            n_decimals: 1
        },
        a.in_currency(&Currency::new("EUR"))
    );
    // an amount is zero-extended over every currency it does not mention
    assert_eq!(
        Number {
            value: 0,
            n_decimals: 0
        },
        a.in_currency(&Currency::new("JPY"))
    );
    assert_eq!("42.10 EUR, -8.00 USD, ", a.to_text());
}

#[test]
fn amount_parse_errors() {
    // a segment without a currency
    assert!(Amount::from_str("45").is_err());
    // the empty listing has an unreadable number
    assert!(Amount::from_str("").is_err());
    // a zero entry is dropped rather than stored
    let a = Amount::from_str("0.000 FOG, 12 SEK").unwrap();
    assert_eq!(1, a.currencies().len());
}

#[test]
fn aligned_format() {
    let numbers = vec![
        Number {
            value: 12345,
            n_decimals: 1,
        },
        Number {
            value: -225,
            n_decimals: 2,
        },
    ];
    let alignment = NumberAlignment::from_numbers(&numbers);
    assert_eq!(5, alignment.unit_slots);
    assert_eq!(2, alignment.decimal_slots);
    assert_eq!(" 1,234.05", numbers[0].format(&alignment));
    assert_eq!("-    2.25", numbers[1].format(&alignment));
}

#[test]
fn value_equality() {
    assert_eq!(Currency::new("EUR"), Currency::new("EUR"));
    assert_ne!(Currency::new("EUR"), Currency::new("SEK"));
}

#[test]
fn amount_from_entries() {
    let entries = vec![
        (Currency::new("EUR"), Number { value: 421, n_decimals: 1 }),
        (Currency::new("FOG"), Number { value: 0, n_decimals: 3 }),
        (Currency::new("USD"), Number { value: -8, n_decimals: 0 }),
    ];
    let rebuilt = Amount::from_entries(&entries).unwrap();
    assert_eq!(Amount::from_str("42.1 EUR, -8 USD").unwrap(), rebuilt);

    let clashing = vec![
        (Currency::new("EUR"), Number { value: 1, n_decimals: 0 }),
        (Currency::new("EUR"), Number { value: 2, n_decimals: 0 }),
    ];
    assert!(Amount::from_entries(&clashing).is_err());
}
