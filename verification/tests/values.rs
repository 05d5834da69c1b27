use hotel_ledger::category::Category;
use hotel_ledger::data::Person;
use hotel_ledger::bignum::{limbs_is_zero, limbs_low};
use hotel_ledger::date::{has_date_shape, Date};
use hotel_ledger::decimal::{decimal_string, parse_bounded, IntError};
use hotel_ledger::error::ErrorKind;
use hotel_ledger::hotel_id::HotelId;
use hotel_ledger::listing::{join_in_order, key_before, sort_keys};
use hotel_ledger::price::Price;

#[test]
fn hotel_id_is_written_in_five_digits() {
    assert_eq!(HotelId::from_str("1").unwrap().to_string(), "00001");
    assert_eq!(HotelId::from_str("42").unwrap().to_string(), "00042");
    assert_eq!(HotelId::from_str("99999").unwrap().to_string(), "99999");
    assert_eq!(HotelId::from_str("12345").unwrap().to_string(), "12345");
}

#[test]
fn hotel_id_round_trip() {
    for n in [1u32, 9, 10, 99, 100, 4711, 10000, 54321, 99998, 99999] {
        let id = HotelId::new(n).unwrap();
        let text = id.to_string();
        assert_eq!(text.chars().count(), 5);
        let back = HotelId::from_str(&text).unwrap();
        assert_eq!(back, id);
        assert_eq!(back.get(), n);
    }
}

#[test]
fn hotel_id_accepts_sign_and_leading_zeros() {
    assert_eq!(HotelId::from_str("+7").unwrap().get(), 7);
    assert_eq!(HotelId::from_str("0000000001").unwrap().get(), 1);
    assert_eq!(HotelId::from_str("00001").unwrap().get(), 1);
}

#[test]
fn hotel_id_rejects_zero() {
    let err = HotelId::from_str("0").unwrap_err();
    assert_eq!(err.kind(), ErrorKind::Parse);
    assert_eq!(err.message(), "number would be zero for non-zero type");
    assert!(HotelId::from_str("00000").is_err());
    assert!(HotelId::new(0).is_none());
}

#[test]
fn hotel_id_rejects_six_digits() {
    let err = HotelId::from_str("100000").unwrap_err();
    assert_eq!(err.kind(), ErrorKind::Parse);
    assert_eq!(err.message(), "Hotel id 100000 must not exceed 5");
    assert!(HotelId::new(100000).is_none());
}

#[test]
fn hotel_id_rejects_malformed_text() {
    assert_eq!(
        HotelId::from_str("").unwrap_err().message(),
        "cannot parse integer from empty string"
    );
    assert_eq!(HotelId::from_str("abc").unwrap_err().message(), "invalid digit found in string");
    assert_eq!(HotelId::from_str("+").unwrap_err().message(), "invalid digit found in string");
    assert_eq!(HotelId::from_str("-1").unwrap_err().message(), "invalid digit found in string");
    assert_eq!(HotelId::from_str("1 ").unwrap_err().message(), "invalid digit found in string");
    assert_eq!(
        HotelId::from_str("4294967296").unwrap_err().message(),
        "number too large to fit in target type"
    );
}

#[test]
fn decimal_numbers_are_read_and_written() {
    assert_eq!(parse_bounded("0", 10), Ok(0));
    assert_eq!(parse_bounded("+10", 10), Ok(10));
    assert_eq!(parse_bounded("11", 10), Err(IntError::TooLarge));
    assert_eq!(parse_bounded("", 10), Err(IntError::Empty));
    assert_eq!(parse_bounded("1x", 10), Err(IntError::InvalidDigit));
    assert_eq!(parse_bounded("18446744073709551615", u64::MAX), Ok(u64::MAX));
    assert_eq!(parse_bounded("18446744073709551616", u64::MAX), Err(IntError::TooLarge));
    assert_eq!(decimal_string(0), "0");
    assert_eq!(decimal_string(907), "907");
    assert_eq!(decimal_string(u64::MAX), "18446744073709551615");
}

#[test]
fn price_is_written_with_two_digits_of_cents() {
    assert_eq!(Price::from_str("50.00€").unwrap().to_string(), "50.00€");
    assert_eq!(Price::from_str("50.00").unwrap().to_string(), "50.00€");
    assert_eq!(Price::from_str("50").unwrap().to_string(), "50.00€");
    assert_eq!(Price::from_str("50€").unwrap().to_string(), "50.00€");
    assert_eq!(Price::from_str("50.5").unwrap().to_string(), "50.50€");
    assert_eq!(Price::from_str("50.05").unwrap().to_string(), "50.05€");
    assert_eq!(Price::from_str("0.01").unwrap().to_string(), "0.01€");
    assert_eq!(Price::from_str("0.1€").unwrap().to_string(), "0.10€");
    assert_eq!(Price::from_str("7.").unwrap().to_string(), "7.00€");
}

#[test]
fn price_parse_then_format_is_idempotent() {
    for text in ["50.00€", "50", "1.5", "0.07", "12345678901234567890123.45€", "3.10", "0099.9"] {
        let once = Price::from_str(text).unwrap().to_string();
        let twice = Price::from_str(&once).unwrap().to_string();
        assert_eq!(once, twice);
    }
}

#[test]
fn price_accepts_excess_precision_of_zero() {
    assert_eq!(Price::from_str("1.230").unwrap().to_string(), "1.23€");
    assert_eq!(Price::from_str("1.2300000€").unwrap().to_string(), "1.23€");
    assert_eq!(Price::from_str("1.000").unwrap().to_string(), "1.00€");
}

#[test]
fn price_rejects_excess_precision() {
    let err = Price::from_str("1.234").unwrap_err();
    assert_eq!(err.kind(), ErrorKind::Parse);
    assert_eq!(err.message(), "Price only has 2 digits of precision");
    assert!(Price::from_str("1.001").is_err());
    assert!(Price::from_str("0.009€").is_err());
}

#[test]
fn price_rejects_zero() {
    assert_eq!(Price::from_str("0").unwrap_err().message(), "Price must be non-zero");
    assert_eq!(Price::from_str("0.00").unwrap_err().message(), "Price must be non-zero");
    assert_eq!(Price::from_str("0.0€").unwrap_err().message(), "Price must be non-zero");
    assert_eq!(Price::from_str("000.000").unwrap_err().message(), "Price must be non-zero");
}

#[test]
fn price_rejects_malformed_text() {
    assert_eq!(
        Price::from_str("1.2.3").unwrap_err().message(),
        "Cannot have multiple decimal separators in price"
    );
    assert_eq!(
        Price::from_str("").unwrap_err().message(),
        "cannot parse integer from empty string"
    );
    assert_eq!(
        Price::from_str(".5").unwrap_err().message(),
        "cannot parse integer from empty string"
    );
    assert_eq!(Price::from_str("abc").unwrap_err().message(), "invalid digit found in string");
    assert_eq!(Price::from_str("1.x").unwrap_err().message(), "invalid digit found in string");
    assert_eq!(Price::from_str("1.5x").unwrap_err().message(), "invalid digit found in string");
    assert_eq!(Price::from_str("1.50x").unwrap_err().message(), "invalid digit found in string");
    assert_eq!(Price::from_str("-1").unwrap_err().message(), "invalid digit found in string");
    assert_eq!(Price::from_str("1,50").unwrap_err().message(), "invalid digit found in string");
    assert_eq!(Price::from_str("5€€").unwrap_err().message(), "invalid digit found in string");
    assert_eq!(Price::from_str("5 €").unwrap_err().message(), "invalid digit found in string");
}

#[test]
fn price_reads_what_big_numbers_read() {
    assert_eq!(Price::from_str("1_000.50€").unwrap().to_string(), "1000.50€");
    assert_eq!(Price::from_str("+12.34").unwrap().to_string(), "12.34€");
    assert!(Price::from_str("_1.00").is_err());
    assert_eq!(Price::from_str("1.230_0").unwrap().to_string(), "1.23€");
}

#[test]
fn price_literals_at_the_edges() {
    assert_eq!(Price::from_str("1_").unwrap().to_string(), "1.00€");
    assert_eq!(Price::from_str("1__2.5").unwrap().to_string(), "12.50€");
    assert_eq!(Price::from_str("+0.5").unwrap().to_string(), "0.50€");
    assert_eq!(Price::from_str("1.+5").unwrap().to_string(), "1.05€");
    assert_eq!(Price::from_str("1.50+0").unwrap().to_string(), "1.50€");
    assert!(Price::from_str("+").is_err());
    assert!(Price::from_str("++1").is_err());
    assert!(Price::from_str("+_1").is_err());
    assert!(Price::from_str("_").is_err());
    assert!(Price::from_str("1.+").is_err());
    assert!(Price::from_str("1._5").is_err());
    assert!(Price::from_str("1.50_").is_err());
    assert!(Price::from_str("1.5_0").is_err());
    assert!(Price::from_str("１").is_err());
    assert!(Price::from_str("1a").is_err());
    assert!(Price::from_str("0x10").is_err());
    assert!(Price::from_str("€").is_err());
    assert!(Price::from_str("€5").is_err());
    assert!(Price::from_str("1e3").is_err());
}

#[test]
fn price_has_no_upper_bound() {
    let text = "340282366920938463463374607431768211456.99€";
    assert_eq!(Price::from_str(text).unwrap().to_string(), text);
}

#[test]
fn price_times_nights_is_exact() {
    let price = Price::from_str("50.00€").unwrap();
    assert_eq!(price.times(4).to_string(), "200.00€");
    assert_eq!(price.times(1).to_string(), "50.00€");
    assert_eq!(price.times(0).to_string(), "0.00€");
    let odd = Price::from_str("0.07").unwrap();
    assert_eq!(odd.times(15).to_string(), "1.05€");
    let large = Price::from_str("99999999999999999999.99").unwrap();
    assert_eq!(large.times(u64::MAX).to_string(), "1844674407370955161499815532559262904483.85€");
}

#[test]
fn price_order_is_that_of_the_amounts() {
    let low = Price::from_str("9.99").unwrap();
    let high = Price::from_str("10").unwrap();
    assert!(low.less_than(&high));
    assert!(!high.less_than(&low));
    assert!(!low.less_than(&low));
    assert!(low.same_as(&Price::from_str("9.990€").unwrap()));
    assert!(!low.same_as(&high));
    assert!(low.clone().same_as(&low));
    assert!(low < high);
    assert!(high > low);
    assert!(low <= low.clone());
    assert_eq!(low, Price::from_str("9.99€").unwrap());
    assert_ne!(low, high);
    // The amounts are compared, not their digits.
    assert!(Price::from_str("42949672.96").unwrap() > Price::from_str("42949672.95").unwrap());
    assert!(Price::from_str("9").unwrap() < Price::from_str("10").unwrap());
    assert!(Price::from_str("184467440737095516.16").unwrap() > Price::from_str("99.99").unwrap());
}

#[test]
fn category_text_is_the_name() {
    assert_eq!(Category::from_str("Single").unwrap(), Category::Single);
    assert_eq!(Category::from_str("Double").unwrap(), Category::Double);
    assert_eq!(Category::from_str("Suite").unwrap(), Category::Suite);
    assert_eq!(Category::Single.to_string(), "Single");
    assert_eq!(Category::Double.to_string(), "Double");
    assert_eq!(Category::Suite.to_string(), "Suite");
}

#[test]
fn category_is_case_sensitive() {
    let err = Category::from_str("single").unwrap_err();
    assert_eq!(err.kind(), ErrorKind::Parse);
    assert_eq!(err.message(), "Unknown category 'single'");
    assert!(Category::from_str("SUITE").is_err());
    assert!(Category::from_str("").is_err());
    assert!(Category::from_str("Twin").is_err());
}

#[test]
fn date_is_read_and_written() {
    assert_eq!(Date::from_str("2024-01-01").unwrap().to_string(), "2024-01-01");
    assert_eq!(Date::from_str("2024-02-29").unwrap().to_string(), "2024-02-29");
    assert_eq!(Date::from_str("1999-12-31").unwrap().to_string(), "1999-12-31");
    assert_eq!(Date::from_str("2000-01-01").unwrap().into_inner(), 2_451_545);
    assert_eq!(Date::from_julian_day(2_458_485).unwrap().to_string(), "2019-01-01");
}

#[test]
fn date_rejects_what_is_no_date() {
    let err = Date::from_str("2023-02-29").unwrap_err();
    assert_eq!(err.kind(), ErrorKind::Parse);
    assert_eq!(err.message(), "Invalid date '2023-02-29'");
    assert!(Date::from_str("2024-13-01").is_err());
    assert!(Date::from_str("2024-00-10").is_err());
    assert!(Date::from_str("2024-1-1").is_err());
    assert!(Date::from_str("24-01-01").is_err());
    assert!(Date::from_str("2024/01/01").is_err());
    assert!(Date::from_str("2024-01-01 ").is_err());
    assert!(Date::from_str("").is_err());
    assert!(Date::from_str("tomorrow").is_err());
    assert!(Date::from_julian_day(i32::MAX).is_none());
    assert!(Date::from_julian_day(i32::MIN).is_none());
}

#[test]
fn date_has_four_digits_of_the_year() {
    assert_eq!(Date::from_str("0000-01-01").unwrap().to_string(), "0000-01-01");
    assert_eq!(Date::from_str("0001-12-31").unwrap().to_string(), "0001-12-31");
    assert_eq!(Date::from_str("9999-12-31").unwrap().to_string(), "9999-12-31");
    assert!(Date::from_str("+2024-01-01").is_err());
    assert!(Date::from_str("-0044-03-15").is_err());
    assert!(Date::from_str("10000-01-01").is_err());
    assert!(Date::from_str("202a-01-01").is_err());
    // The Julian day 0 is a day of the year -4713.
    assert!(Date::from_julian_day(0).is_none());
    let first = Date::from_str("0000-01-01").unwrap().into_inner();
    assert!(Date::from_julian_day(first).is_some());
    assert!(Date::from_julian_day(first - 1).is_none());
    let last = Date::from_str("9999-12-31").unwrap().into_inner();
    assert!(Date::from_julian_day(last).is_some());
    assert!(Date::from_julian_day(last + 1).is_none());
}

#[test]
fn the_form_of_a_date() {
    assert!(has_date_shape("2024-01-01"));
    assert!(has_date_shape("0000-00-00"));
    assert!(has_date_shape("9999-99-99"));
    assert!(!has_date_shape("2024-01-1"));
    assert!(!has_date_shape("2024-01-011"));
    assert!(!has_date_shape("2024 01 01"));
    assert!(!has_date_shape("2024-0a-01"));
    assert!(!has_date_shape("٢٠٢٤-01-01"));
    assert!(!has_date_shape(""));
}

#[test]
fn dates_are_ordered_and_subtracted() {
    let a = Date::from_str("2024-02-28").unwrap();
    let b = Date::from_str("2024-03-01").unwrap();
    assert!(a < b);
    assert!(a.is_before(&b));
    assert!(!b.is_before(&a));
    assert!(!a.is_before(&a));
    assert_eq!(a.days_until(&b), 2);
    assert_eq!(b.days_until(&a), -2);
    assert_eq!(a.days_until(&a), 0);
    assert_eq!(a.nights_until(&b), 2);
    assert_eq!(b.nights_until(&a), u64::MAX - 1);
    let c = Date::from_str("2023-02-28").unwrap();
    let d = Date::from_str("2023-03-01").unwrap();
    assert_eq!(c.days_until(&d), 1);
    assert_eq!(c.days_until(&a), 365);
}

#[test]
fn persons_are_compared_by_both_names() {
    let ada = Person { forename: "Ada".to_string(), surname: "Lovelace".to_string() };
    let other = Person { forename: "Ada".to_string(), surname: "Byron".to_string() };
    let lower = Person { forename: "ada".to_string(), surname: "Lovelace".to_string() };
    assert!(ada.same_as(&ada.clone()));
    assert!(!ada.same_as(&other));
    assert!(!ada.same_as(&lower));
    assert_eq!(ada, ada.clone());
}

#[test]
fn keys_are_sorted_by_first_then_second() {
    assert!(key_before((1, 5), (2, 0)));
    assert!(key_before((1, 5), (1, 6)));
    assert!(!key_before((1, 5), (1, 5)));
    assert!(!key_before((2, 0), (1, 5)));
    let keys = vec![(3, 1), (1, 9), (2, 2), (1, 3), (0, u64::MAX)];
    assert_eq!(sort_keys(&keys), vec![4, 3, 1, 2, 0]);
    assert_eq!(sort_keys(&vec![]), Vec::<usize>::new());
    assert_eq!(sort_keys(&vec![(7, 7)]), vec![0]);
}

#[test]
fn lines_are_joined_in_order() {
    let lines = vec!["c".to_string(), "a".to_string(), "b".to_string()];
    assert_eq!(join_in_order(&lines, &vec![1, 2, 0]), "a\nb\nc");
    assert_eq!(join_in_order(&lines, &vec![2]), "b");
    assert_eq!(join_in_order(&lines, &vec![]), "");
}

#[test]
fn digits_of_big_numbers() {
    assert!(limbs_is_zero(&vec![]));
    assert!(limbs_is_zero(&vec![0, 0]));
    assert!(!limbs_is_zero(&vec![0, 1]));
    assert_eq!(limbs_low(&vec![]), 0);
    assert_eq!(limbs_low(&vec![42]), 42);
    assert_eq!(limbs_low(&vec![u32::MAX, 0]), u32::MAX);
}
