use scicalc_rs::decimal::{sig_figs, DecimalNumber};

#[test]
fn test_decimal_number_1() {
    let d = DecimalNumber::new("1.23");
    assert_eq!("1", d.integral);
    assert_eq!("23", d.fractional);
}

#[test]
fn test_decimal_number_2() {
    let d = DecimalNumber::new(".23");
    assert_eq!("0", d.integral);
    assert_eq!("23", d.fractional);
}

#[test]
fn test_sig_figs() {
    assert_eq!(2, sig_figs("81"));
    assert_eq!(3, sig_figs("81.3"));
    assert_eq!(1, sig_figs("0.3"));
    assert_eq!(2, sig_figs("0.30"));
    assert_eq!(4, sig_figs("0.3000"));
    assert_eq!(1, sig_figs("0.00001"));
    assert_eq!(4, sig_figs("380.0"));
    assert_eq!(3, sig_figs("78800"));
    assert_eq!(6, sig_figs("78800.0"));
}

#[test]
fn test_sig_figs_method() {
    let d = DecimalNumber::new("81");
    assert_eq!(2, d.sig_figs());
}

#[test]
fn decimal_without_period_has_empty_fraction() {
    let d = DecimalNumber::new("4500");
    assert_eq!("4500", d.integral);
    assert_eq!("", d.fractional);
}

#[test]
fn decimal_empty_text_defaults_integral_to_zero() {
    let d = DecimalNumber::new("");
    assert_eq!("0", d.integral);
    assert_eq!("", d.fractional);
}

#[test]
fn decimal_fraction_stops_at_second_period() {
    let d = DecimalNumber::new("1.2.3");
    assert_eq!("1", d.integral);
    assert_eq!("2", d.fractional);
}

#[test]
fn full_number_joins_parts() {
    assert_eq!("81.099", DecimalNumber::new("81.099").full_number());
    assert_eq!("0.178", DecimalNumber::new(".178").full_number());
    assert_eq!("81", DecimalNumber::new("81").full_number());
}

#[test]
fn sig_figs_edge_cases() {
    assert_eq!(0, sig_figs("0"));
    assert_eq!(0, sig_figs("000"));
    assert_eq!(3, sig_figs("101"));
    assert_eq!(3, sig_figs("1010"));
    assert_eq!(2, sig_figs(".50"));
}

#[test]
fn decimal_equality_compares_both_parts() {
    assert_eq!(DecimalNumber::new(".5"), DecimalNumber::new("0.5"));
    assert_ne!(DecimalNumber::new("0.5"), DecimalNumber::new("0.50"));
}

#[test]
fn integer_literal_text_is_kept() {
    for text in ["81", "0", "007", "123456789"] {
        let d = DecimalNumber::new(text);
        assert_eq!(text, d.full_number());
        assert_eq!(text.parse::<f64>().unwrap(), d.full_number().parse::<f64>().unwrap());
    }
}
