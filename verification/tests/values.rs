use scatterframe::value::{parse_number, AnyValue, DataType, NUMBER_SCALE};

#[test]
fn infer_number_from_text() {
    let v = AnyValue::from("3.5");
    assert_eq!(v, AnyValue::Number(3_500_000));
    assert_eq!(3_500_000, (35 * NUMBER_SCALE) / 10);
}

#[test]
fn infer_text_from_text() {
    let v = AnyValue::from("abc");
    match v {
        AnyValue::Utf8(t) => assert_eq!(t, "abc"),
        _ => panic!("expected text"),
    }
}

#[test]
fn cross_variant_comparison_is_incomparable() {
    let t = AnyValue::Utf8(String::from("x"));
    let n = AnyValue::Number(NUMBER_SCALE);
    assert!(t.partial_cmp(&n).is_none());
    assert!(n.partial_cmp(&t).is_none());
}

#[test]
fn numbers_compare_numerically() {
    let a = AnyValue::Number(NUMBER_SCALE);
    let b = AnyValue::Number(2 * NUMBER_SCALE);
    assert_eq!(a.partial_cmp(&b), Some(std::cmp::Ordering::Less));
    assert_eq!(b.partial_cmp(&a), Some(std::cmp::Ordering::Greater));
    assert_eq!(a.partial_cmp(&a), Some(std::cmp::Ordering::Equal));
}

#[test]
fn text_compares_lexically() {
    let a = AnyValue::Utf8(String::from("apple"));
    let b = AnyValue::Utf8(String::from("banana"));
    assert_eq!(a.partial_cmp(&b), Some(std::cmp::Ordering::Less));
}

#[test]
fn total_order_treats_incomparable_as_equal() {
    let t = AnyValue::Utf8(String::from("x"));
    let n = AnyValue::Number(NUMBER_SCALE);
    assert_eq!(t.cmp_value(&n), std::cmp::Ordering::Equal);
    assert_eq!(
        AnyValue::Null.cmp_value(&AnyValue::Null),
        std::cmp::Ordering::Equal
    );
    let a = AnyValue::Number(NUMBER_SCALE);
    let b = AnyValue::Number(2 * NUMBER_SCALE);
    assert_eq!(a.cmp_value(&b), std::cmp::Ordering::Less);
    let s = AnyValue::Utf8(String::from("aa"));
    let u = AnyValue::Utf8(String::from("ab"));
    assert_eq!(s.cmp_value(&u), std::cmp::Ordering::Less);
}

#[test]
fn null_equals_nothing() {
    assert!(AnyValue::Null != AnyValue::Null);
    assert!(AnyValue::Null != AnyValue::Number(0));
    assert!(AnyValue::Null.partial_cmp(&AnyValue::Null).is_none());
}

#[test]
fn value_equality_by_content() {
    assert_eq!(AnyValue::Number(42), AnyValue::Number(42));
    assert_ne!(AnyValue::Number(42), AnyValue::Number(43));
    assert_eq!(
        AnyValue::Utf8(String::from("hi")),
        AnyValue::Utf8(String::from("hi"))
    );
    assert_ne!(
        AnyValue::Utf8(String::from("hi")),
        AnyValue::Utf8(String::from("ho"))
    );
}

#[test]
fn parse_number_grammar() {
    assert_eq!(parse_number("3.5"), Some(3_500_000));
    assert_eq!(parse_number("0"), Some(0));
    assert_eq!(parse_number("-2"), Some(-2_000_000));
    assert_eq!(parse_number("+4.25"), Some(4_250_000));
    assert_eq!(parse_number("12."), Some(12_000_000));
    assert_eq!(parse_number(".5"), Some(500_000));
    assert_eq!(parse_number("007"), Some(7_000_000));
    assert_eq!(parse_number("abc"), None);
    assert_eq!(parse_number(""), None);
    assert_eq!(parse_number("-"), None);
    assert_eq!(parse_number("."), None);
    assert_eq!(parse_number("3.5.1"), None);
    assert_eq!(parse_number("1e5"), None);
    assert_eq!(parse_number("12 "), None);
}

#[test]
fn parse_number_length_limits() {
    // twelve integer digits pass, thirteen do not
    assert_eq!(
        parse_number("999999999999"),
        Some(999_999_999_999 * NUMBER_SCALE)
    );
    assert_eq!(parse_number("9999999999999"), None);
    // six fraction digits pass, seven do not
    assert_eq!(parse_number("0.123456"), Some(123_456));
    assert_eq!(parse_number("0.1234567"), None);
}

#[test]
fn infer_column_type() {
    assert_eq!(DataType::from("3.5"), DataType::Number);
    assert_eq!(DataType::from("abc"), DataType::Utf8);
    assert_eq!(DataType::from(""), DataType::Utf8);
}
