use ledger::amount::Amount;
use ledger::amount::ParseAmountError;

fn d(s: &str) -> u64 {
    Amount::from_text(s).unwrap().units()
}

fn d_err(s: &str) -> ParseAmountError {
    if let Err(e) = Amount::from_text(s) {
        e
    } else {
        panic!("should get error")
    }
}

fn s(x: u64) -> String {
    Amount::from_units(x).to_text()
}

#[test]
fn test_deser() {
    assert_eq!(d("1"), 10000);
    assert_eq!(d(".1"), 1000);
    assert_eq!(d("123.4567"), 1234567);
    assert_eq!(d(".067"), 670);
    assert_eq!(d(".0670000"), 670);
    assert_eq!(d(".060"), 600);
    assert_eq!(d("010.0010"), 100010);
    assert_eq!(d("100000000000"), 100_000_000_000_0000);
    assert_eq!(d("+1."), 10000)
}

#[test]
fn test_deser_err() {
    type E = ParseAmountError;

    assert!(Amount::from_text("1e1").is_err());
    assert!(Amount::from_text("-1").is_err());
    assert!(Amount::from_text("-0").is_err());
    assert_eq!(d_err("1844674407370955.1616"), E::TooLarge);
    assert_eq!(d_err(".12."), E::MultipleDots);
    assert_eq!(d_err(".01234"), E::TooPrecise);
}

#[test]
fn test_ser() {
    assert_eq!(s(0), "0");
    assert_eq!(s(12300), "1.23");
    assert_eq!(s(1234), "0.1234");
    assert_eq!(s(100_000_000_000_0001), "100000000000.0001");
    assert_eq!(s(100_000_000_000_0000), "100000000000")
}

#[test]
fn test_deser_edges() {
    type E = ParseAmountError;

    // A lone dot is zero: empty integer and empty fractional part.
    assert_eq!(d("."), 0);
    assert_eq!(d("0.0000000"), 0);
    // The sign is only a prefix of the number; parts must be digits.
    assert_eq!(d_err(""), E::Parse);
    assert_eq!(d_err("+"), E::Parse);
    assert_eq!(d_err("+."), E::Parse);
    assert_eq!(d_err("++1"), E::Parse);
    assert_eq!(d_err(".+1"), E::Parse);
    assert_eq!(d_err("1e1"), E::Parse);
    assert_eq!(d_err("1 "), E::Parse);
    // Largest representable value, and one past it.
    assert_eq!(d("1844674407370955.1615"), u64::MAX);
    assert_eq!(d_err("1844674407370955.1616"), E::TooLarge);
    assert_eq!(d_err("18446744073709551616"), E::Parse);
    assert_eq!(d_err("1844674407370956"), E::TooLarge);
}

#[test]
fn test_round_trip() {
    for x in [
        0u64,
        1,
        9,
        10,
        9999,
        10000,
        10001,
        12300,
        1234567,
        100_000_000_000_0001,
        u64::MAX - 1,
        u64::MAX,
    ] {
        let a = Amount::from_units(x);
        let back = Amount::from_text(&a.to_text()).unwrap();
        assert_eq!(back, a);
        assert_eq!(back.units(), x);
    }
}

#[test]
fn test_checked_arith() {
    let max = Amount::from_units(u64::MAX);
    let one = Amount::from_units(1);
    let zero = Amount::new();
    assert_eq!(max.checked_add(one), None);
    assert_eq!(max.checked_add(zero), Some(max));
    assert_eq!(one.checked_add(one), Some(Amount::from_units(2)));
    assert_eq!(zero.checked_sub(one), None);
    assert_eq!(one.checked_sub(one), Some(zero));
    assert_eq!(max.checked_sub(one), Some(Amount::from_units(u64::MAX - 1)));
}

#[test]
fn test_parse_error_messages() {
    assert_eq!(ParseAmountError::Parse.message(), "int parsing error");
    assert_eq!(ParseAmountError::TooLarge.message(), "number is too large");
    assert_eq!(
        ParseAmountError::MultipleDots.message(),
        "wrong format: multiple dots"
    );
    assert_eq!(
        ParseAmountError::TooPrecise.message(),
        "unsupported precision of >4"
    );
}
