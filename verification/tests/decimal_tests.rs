use molecule_core::{parse_decimal, Decimal, DECIMAL_MAX, DECIMAL_ONE, DECIMAL_PLACES};

fn text(s: &str) -> Vec<char> {
    s.chars().collect()
}

fn plus(magnitude: u64) -> Option<Decimal> {
    Some(Decimal { negative: false, magnitude })
}

fn minus(magnitude: u64) -> Option<Decimal> {
    Some(Decimal { negative: true, magnitude })
}

#[test]
fn one_is_ten_million_units() {
    assert_eq!(DECIMAL_PLACES, 7);
    assert_eq!(DECIMAL_ONE, 10_000_000);
    assert_eq!(Decimal::one(), Decimal { negative: false, magnitude: 10_000_000 });
    assert_eq!(Decimal::zero(), Decimal { negative: false, magnitude: 0 });
}

#[test]
fn parse_decimal_reads_plain_notation() {
    assert_eq!(parse_decimal(&text("0")), plus(0));
    assert_eq!(parse_decimal(&text("1")), plus(10_000_000));
    assert_eq!(parse_decimal(&text("1.5")), plus(15_000_000));
    assert_eq!(parse_decimal(&text("-0.677")), minus(6_770_000));
    assert_eq!(parse_decimal(&text("+3")), plus(30_000_000));
    assert_eq!(parse_decimal(&text("5.")), plus(50_000_000));
    assert_eq!(parse_decimal(&text(".5")), plus(5_000_000));
    assert_eq!(parse_decimal(&text("-.5")), minus(5_000_000));
    assert_eq!(parse_decimal(&text("0.1234567")), plus(1_234_567));
    assert_eq!(parse_decimal(&text("0.0000001")), plus(1));
    assert_eq!(parse_decimal(&text("99999999")), plus(999_999_990_000_000));
    assert_eq!(parse_decimal(&text("-999.999")), minus(9_999_990_000));
    assert_eq!(parse_decimal(&text("007.50")), plus(75_000_000));
}

#[test]
fn parse_decimal_keeps_the_sign_of_zero() {
    assert_eq!(parse_decimal(&text("-0.000")), minus(0));
    assert_eq!(parse_decimal(&text("0.000")), plus(0));
    assert_eq!(parse_decimal(&text("+0")), plus(0));
}

#[test]
fn parse_decimal_reads_exponents() {
    assert_eq!(parse_decimal(&text("1e3")), plus(10_000_000_000));
    assert_eq!(parse_decimal(&text("1E3")), plus(10_000_000_000));
    assert_eq!(parse_decimal(&text("1.0e+1")), plus(100_000_000));
    assert_eq!(parse_decimal(&text("1.5e-2")), plus(150_000));
    assert_eq!(parse_decimal(&text("2.5E-1")), plus(2_500_000));
    assert_eq!(parse_decimal(&text("-5e-1")), minus(5_000_000));
    assert_eq!(parse_decimal(&text("+1e+2")), plus(1_000_000_000));
    assert_eq!(parse_decimal(&text("1.e2")), plus(1_000_000_000));
    assert_eq!(parse_decimal(&text(".5e1")), plus(50_000_000));
    assert_eq!(parse_decimal(&text("1e0")), plus(10_000_000));
    assert_eq!(parse_decimal(&text("1e-0")), plus(10_000_000));
    assert_eq!(parse_decimal(&text("00012e002")), plus(12_000_000_000));
    assert_eq!(parse_decimal(&text("123.456e-3")), plus(1_234_560));
    assert_eq!(parse_decimal(&text("1e-7")), plus(1));
    assert_eq!(parse_decimal(&text("1e12")), plus(10_000_000_000_000_000_000));
}

#[test]
fn parse_decimal_rounds_to_the_nearest_ten_millionth() {
    assert_eq!(parse_decimal(&text("0.12345678")), plus(1_234_568));
    assert_eq!(parse_decimal(&text("0.12345674")), plus(1_234_567));
    assert_eq!(parse_decimal(&text("0.12345675")), plus(1_234_568));
    assert_eq!(parse_decimal(&text("-0.12345675")), minus(1_234_568));
    assert_eq!(parse_decimal(&text("1.00000000")), plus(10_000_000));
    assert_eq!(parse_decimal(&text("0.99999995")), plus(10_000_000));
    assert_eq!(parse_decimal(&text("0.00000005")), plus(1));
    assert_eq!(parse_decimal(&text("0.00000004999")), plus(0));
    assert_eq!(parse_decimal(&text("5e-8")), plus(1));
    assert_eq!(parse_decimal(&text("4.9e-8")), plus(0));
    assert_eq!(parse_decimal(&text("-5e-8")), minus(1));
    assert_eq!(parse_decimal(&text("1e-8")), plus(0));
    assert_eq!(parse_decimal(&text("9e-9")), plus(0));
    assert_eq!(parse_decimal(&text("-1e-30")), minus(0));
    assert_eq!(parse_decimal(&text("123456789e-9")), plus(1_234_568));
    assert_eq!(parse_decimal(&text("1e-99999999999999999999999999999999")), plus(0));
    assert_eq!(parse_decimal(&text("0e99999999999999999999999999999999")), plus(0));
    assert_eq!(parse_decimal(&text("0.000e99999999999999999999999999999999")), plus(0));
}

#[test]
fn parse_decimal_rejects_other_notations() {
    for case in [
        "", ".", "+", "-", "+.", "-.", "1..2", "1.2.3", "inf", "-inf", "infinity", "nan", "NaN",
        " 1", "1 ", "1,5", "--1", "+-1", "1-", "0x1", "1_000", "\u{661}", "e", "e5", "1e", "1e+",
        "1e-", ".e5", "-e5", "1e5.0", "1e 5", "1ee5", "1e5e5", "1e+-5", "1.5ex", "E", "1E", "e-1",
    ]
    .iter()
    {
        assert_eq!(parse_decimal(&text(case)), None, "input {:?}", case);
    }
}

#[test]
fn parse_decimal_holds_too_large_numbers_as_the_largest() {
    assert_eq!(DECIMAL_MAX, u64::MAX);
    assert_eq!(parse_decimal(&text("1844674407370.9551615")), plus(u64::MAX));
    assert_eq!(parse_decimal(&text("1844674407370.95516154")), plus(u64::MAX));
    assert_eq!(parse_decimal(&text("1844674407370.95516155")), plus(u64::MAX));
    assert_eq!(parse_decimal(&text("1844674407370.9551616")), plus(u64::MAX));
    assert_eq!(parse_decimal(&text("1844674407370.9551614")), plus(u64::MAX - 1));
    assert_eq!(parse_decimal(&text("1844674407371")), plus(u64::MAX));
    assert_eq!(parse_decimal(&text("-99999999999999999999999999")), minus(u64::MAX));
    assert_eq!(parse_decimal(&text("1844674407370")), plus(18_446_744_073_700_000_000));
    assert_eq!(parse_decimal(&text("2e12")), plus(u64::MAX));
    assert_eq!(parse_decimal(&text("1e13")), plus(u64::MAX));
    assert_eq!(parse_decimal(&text("1e39")), plus(u64::MAX));
    assert_eq!(parse_decimal(&text("-1e99999")), minus(u64::MAX));
    assert_eq!(parse_decimal(&text("0.001e99999999999999999999999999999999")), plus(u64::MAX));
    assert_eq!(
        parse_decimal(&text("99999999999999999999999999e-14")),
        plus(10_000_000_000_000_000_000)
    );
    assert_eq!(parse_decimal(&text("99999999999999999999999999e-13")), plus(u64::MAX));
}

#[test]
fn parse_decimal_reads_what_floating_point_reads() {
    for case in [
        "", ".", "+", "-", "1", "-1", "+1", "1.", ".1", "1.1", "1..1", "1e5", "1E5", "1e", "e1",
        "1e+", "1e-5", "1e+5", ".e1", "1.e1", ".1e1", "1e1.5", "1e1e1", "1 ", " 1", "1,0", "0x10",
        "1_0", "--1", "+-1", "1e13", "1e39", "1e-50", "00", "-0", "-.0", "-0.e-0", "12345678",
        "1ee1", "1f", "1d0", "\u{661}", "1e\u{661}", "99999999999999999999999999999999999",
    ]
    .iter()
    {
        let float: Result<f64, _> = case.parse::<f64>();
        assert_eq!(parse_decimal(&text(case)).is_some(), float.is_ok(), "input {:?}", case);
    }
}

#[test]
fn parse_decimal_agrees_with_floating_point_on_column_texts() {
    for case in [
        "-0.677", "1.230", "0.491", "12.345", "-123.456", "9999.999", "0.001", "100", "7.", ".25",
        "1.00", "0.00", "-0.000", "99.99", "1e3", "2.5E-1", "1.5e-2", "-1.25e+2", "5e-1",
    ]
    .iter()
    {
        let d = parse_decimal(&text(case)).unwrap();
        let mut got = d.magnitude as f64 / 1.0e7;
        if d.negative {
            got = -got;
        }
        let want: f64 = case.parse().unwrap();
        assert!((got - want).abs() < 1.0e-9, "input {:?}: {} and {}", case, got, want);
        assert_eq!(d.negative, want.is_sign_negative(), "sign of {:?}", case);
    }
}

#[test]
fn to_text_writes_all_seven_places() {
    assert_eq!(Decimal::zero().to_text(), "0.0000000");
    assert_eq!(Decimal::one().to_text(), "1.0000000");
    assert_eq!(Decimal { negative: true, magnitude: 6_770_000 }.to_text(), "-0.6770000");
    assert_eq!(Decimal { negative: true, magnitude: 0 }.to_text(), "-0.0000000");
    assert_eq!(Decimal { negative: false, magnitude: 1 }.to_text(), "0.0000001");
    assert_eq!(
        Decimal { negative: false, magnitude: u64::MAX }.to_text(),
        "1844674407370.9551615"
    );
}

#[test]
fn to_text_is_read_back_as_the_same_decimal() {
    for magnitude in [0u64, 1, 9, 10, 1_234_567, 10_000_000, 15_000_000, 999_999_990_000_000, u64::MAX].iter() {
        for negative in [false, true].iter() {
            let d = Decimal { negative: *negative, magnitude: *magnitude };
            let written: Vec<char> = d.to_text().chars().collect();
            assert_eq!(parse_decimal(&written), Some(d));
        }
    }
}

#[test]
fn to_text_is_read_by_floating_point_as_the_column_text_is() {
    for case in ["-0.677", "1.230", "12.345", "-123.456", "9999.999", "0.001", "-0.000", "1234.567"].iter() {
        let d = parse_decimal(&text(case)).unwrap();
        let through: f32 = d.to_text().parse().unwrap();
        let direct: f32 = case.parse().unwrap();
        assert_eq!(through.to_bits(), direct.to_bits(), "input {:?}", case);
    }
}

#[test]
fn to_coordinate_text_rounds_to_three_places() {
    let d = |s: &str| parse_decimal(&text(s)).unwrap();
    assert_eq!(d("1.5").to_coordinate_text(), "1.500");
    assert_eq!(d("-0.677").to_coordinate_text(), "-0.677");
    assert_eq!(d("1.0004").to_coordinate_text(), "1.000");
    assert_eq!(d("1.0005").to_coordinate_text(), "1.001");
    assert_eq!(d("1.00049").to_coordinate_text(), "1.000");
    assert_eq!(d("-1.0005").to_coordinate_text(), "-1.001");
    assert_eq!(d("0.9996").to_coordinate_text(), "1.000");
    assert_eq!(d("9.9995").to_coordinate_text(), "10.000");
    assert_eq!(d("-0.0001").to_coordinate_text(), "-0.000");
    assert_eq!(d("-0.000").to_coordinate_text(), "-0.000");
    assert_eq!(d("12345").to_coordinate_text(), "12345.000");
}
