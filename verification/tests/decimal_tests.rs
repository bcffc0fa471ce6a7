use order_matching_engine::messages::{price_text, tick_text};
use order_matching_engine::tick::{price_to_tick, tick_to_price, Price, PRICE_SCALE};
use rust_decimal::prelude::ToPrimitive;
use rust_decimal::Decimal;

fn as_price(d: Decimal) -> Price {
    Price::new(d.mantissa(), d.scale()).unwrap()
}

#[test]
fn ticks_agree_with_decimal_arithmetic() {
    let samples = [
        Decimal::new(103, 1),
        Decimal::new(-103, 1),
        Decimal::new(5, 5),
        Decimal::new(15, 5),
        Decimal::new(25, 5),
        Decimal::new(-25, 5),
        Decimal::new(123_456_789, 6),
        Decimal::new(1, 9),
        Decimal::new(49_999, 9),
        Decimal::new(50_001, 9),
        Decimal::new(0, 3),
        Decimal::new(987_654_321_012_345, 2),
    ];
    for d in samples {
        let scaled = (d * Decimal::from(PRICE_SCALE)).round();
        assert_eq!(price_to_tick(as_price(d)), scaled.to_i64().unwrap(), "{}", d);
    }
}

#[test]
fn prices_of_ticks_agree_with_decimal_division() {
    for t in [103_000i64, 104_000, 1_000_000, 0, -5, 12_345, -120_000, 7, 70, 700, 7_000, 70_000] {
        let divided = Decimal::from(t) / Decimal::from(PRICE_SCALE);
        let p = tick_to_price(t);
        assert_eq!(Decimal::from_i128_with_scale(p.mantissa(), p.scale()), divided, "{}", t);
        assert_eq!(price_text(p), divided.normalize().to_string(), "{}", t);
        assert_eq!(tick_text(t), divided.normalize().to_string(), "{}", t);
    }
}

#[test]
fn decimal_text_is_the_decimal_crates() {
    for (m, s) in [(103i128, 1u32), (103_000, 4), (-5, 3), (0, 0), (0, 5), (1, 28), (-42, 0)] {
        let d = Decimal::from_i128_with_scale(m, s);
        assert_eq!(price_text(Price::new(m, s).unwrap()), d.to_string());
    }
}
