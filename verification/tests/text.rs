use slhack::text::trim_number;

fn nice_float(f: f32, max_frac_digits: usize) -> String {
    trim_number(&format!("{:.1$}", f, max_frac_digits))
}

#[test]
fn nice_float_test() {
    assert_eq!("15", nice_float(15., 2));
    assert_eq!("0", nice_float(0., 2));
    assert_eq!("0.1", nice_float(0.1, 2));
    assert_eq!("0.11", nice_float(0.11, 2));
    assert_eq!("-0.11", nice_float(-0.11, 2));
    assert_eq!("0.5", nice_float(0.499999, 2));
    assert_eq!("0.04", nice_float(0.04, 2));
    assert_eq!("0.02", nice_float(0.019, 2));
    assert_eq!("0.01", nice_float(0.009, 2));
    assert_eq!("1.8", nice_float(100. * 0.018000001, 2));
    assert_eq!("121", nice_float(120.99999, 2));
    assert_eq!("100", nice_float(100., 2));
    assert_eq!("100.1", nice_float(100.1, 2));
}

#[test]
fn numbers_lose_the_zeros_and_the_point_at_their_end() {
    assert_eq!(trim_number("15.00"), "15");
    assert_eq!(trim_number("0.10"), "0.1");
    assert_eq!(trim_number("100"), "100");
    assert_eq!(trim_number("100.0"), "100");
    assert_eq!(trim_number("10.010"), "10.01");
    assert_eq!(trim_number("-0.00"), "-0");
    assert_eq!(trim_number("1..00"), "1");
    assert_eq!(trim_number(".000"), "0");
    assert_eq!(trim_number("."), "0");
    assert_eq!(trim_number(""), "0");
    assert_eq!(trim_number("0"), "0");
    assert_eq!(trim_number("000"), "000");
    assert_eq!(trim_number("0.5é0"), "0.5é");
}
