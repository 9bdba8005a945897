use manifest_perps::error::MarketError;
use manifest_perps::price::Price;

#[test]
fn quote_for_base_with_positive_exponent_multiplies() {
    assert_eq!(Price::new(3, 2).checked_quote_for_base(7, false), Ok(2_100));
    assert_eq!(Price::new(3, 2).checked_quote_for_base(7, true), Ok(2_100));
    assert_eq!(Price::new(5, 0).checked_quote_for_base(100, false), Ok(500));
}

#[test]
fn quote_for_base_with_negative_exponent_rounds_as_asked() {
    let price = Price::new(500_000_001, -8);
    assert_eq!(price.checked_quote_for_base(2, false), Ok(10));
    assert_eq!(price.checked_quote_for_base(2, true), Ok(11));
    assert_eq!(price.checked_quote_for_base(4, true), Ok(21));
}

#[test]
fn quote_for_base_does_not_round_an_exact_quotient() {
    let price = Price::new(25, -1);
    assert_eq!(price.checked_quote_for_base(4, false), Ok(10));
    assert_eq!(price.checked_quote_for_base(4, true), Ok(10));
}

#[test]
fn quote_for_base_of_nothing_is_nothing() {
    assert_eq!(Price::new(7, 100).checked_quote_for_base(0, true), Ok(0));
    assert_eq!(Price::new(0, 100).checked_quote_for_base(9, true), Ok(0));
    assert_eq!(Price::new(7, -100).checked_quote_for_base(0, true), Ok(0));
}

#[test]
fn quote_for_base_reports_overflow() {
    assert_eq!(Price::new(1, 1).checked_quote_for_base(u64::MAX, false), Err(MarketError::Overflow));
    assert_eq!(Price::new(2, 0).checked_quote_for_base(u64::MAX, false), Err(MarketError::Overflow));
    assert_eq!(Price::new(1, 127).checked_quote_for_base(1, false), Err(MarketError::Overflow));
    assert_eq!(Price::new(1, 0).checked_quote_for_base(u64::MAX, false), Ok(u64::MAX));
}

#[test]
fn smallest_price_on_largest_order_is_one_atom_or_none() {
    let price = Price::new(1, i8::MIN);
    assert_eq!(price.checked_quote_for_base(u64::MAX, false), Ok(0));
    assert_eq!(price.checked_quote_for_base(u64::MAX, true), Ok(1));
}

#[test]
fn largest_mantissa_on_largest_order_divides_exactly() {
    let price = Price::new(u32::MAX, -10);
    // 4294967295 * 18446744073709551615 / 10^10
    assert_eq!(price.checked_quote_for_base(u64::MAX, false), Ok(7_922_816_249_581_759_351));
    assert_eq!(price.checked_quote_for_base(u64::MAX, true), Ok(7_922_816_249_581_759_352));
}

#[test]
fn base_for_quote_inverts_the_price() {
    assert_eq!(Price::new(5, 0).checked_base_for_quote(500, false), Ok(100));
    assert_eq!(Price::new(3, 1).checked_base_for_quote(100, false), Ok(3));
    assert_eq!(Price::new(3, 1).checked_base_for_quote(100, true), Ok(4));
    assert_eq!(Price::new(25, -1).checked_base_for_quote(10, false), Ok(4));
    assert_eq!(Price::new(3, -1).checked_base_for_quote(1, false), Ok(3));
    assert_eq!(Price::new(3, -1).checked_base_for_quote(1, true), Ok(4));
}

#[test]
fn base_for_quote_refuses_a_zero_mantissa() {
    assert_eq!(Price::new(0, 0).checked_base_for_quote(10, false), Err(MarketError::InvalidArgument));
    assert_eq!(Price::new(0, -5).checked_base_for_quote(0, true), Err(MarketError::InvalidArgument));
}

#[test]
fn base_for_quote_reports_overflow() {
    assert_eq!(Price::new(1, -1).checked_base_for_quote(u64::MAX, false), Err(MarketError::Overflow));
    assert_eq!(Price::new(1, i8::MIN).checked_base_for_quote(1, false), Err(MarketError::Overflow));
    assert_eq!(Price::new(1, i8::MIN).checked_base_for_quote(0, false), Ok(0));
    assert_eq!(Price::new(10, -1).checked_base_for_quote(u64::MAX, false), Ok(u64::MAX));
}

#[test]
fn base_for_quote_below_one_price_unit() {
    assert_eq!(Price::new(7, 127).checked_base_for_quote(u64::MAX, false), Ok(0));
    assert_eq!(Price::new(7, 127).checked_base_for_quote(u64::MAX, true), Ok(1));
    assert_eq!(Price::new(7, 127).checked_base_for_quote(0, true), Ok(0));
}

#[test]
fn prices_compare_by_value() {
    let ten = Price::new(10, 0);
    let also_ten = Price::new(1, 1);
    let nine_point_nine = Price::new(99, -1);
    assert!(ten.value_le(&also_ten));
    assert!(also_ten.value_le(&ten));
    assert!(!ten.value_lt(&also_ten));
    assert!(nine_point_nine.value_lt(&ten));
    assert!(!ten.value_le(&nine_point_nine));
    assert!(Price::new(0, 127).value_lt(&Price::new(1, i8::MIN)));
    assert!(Price::new(u32::MAX, 0).value_lt(&Price::new(1, 10)));
    assert!(Price::new(1, 9).value_lt(&Price::new(u32::MAX, 0)));
    assert!(Price::new(1, 127).value_le(&Price::new(1, 127)));
    assert!(Price::new(1, -128).value_lt(&Price::new(1, 127)));
}
