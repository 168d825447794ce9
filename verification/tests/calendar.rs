use inoxset::period::{catalog_key, days_in_month, parse_period_key, period_with_key};
use inoxset::text::{parse_unsigned, push_decimal, push_padded, str_eq};
use inoxset::types::{Granularity, Period};

fn closes_at(p: Period, boundary: u64) {
    assert!(p.is_closed(boundary), "{p:?} must be closed at {boundary}");
    assert!(p.is_closed(u64::MAX));
    if boundary > 0 {
        assert!(!p.is_closed(boundary - 1), "{p:?} must be open before {boundary}");
    }
}

#[test]
fn periods_close_at_the_first_second_after() {
    closes_at(Period::Hour(2026, 3, 11, 14), 1_773_241_200);
    closes_at(Period::Hour(2026, 3, 11, 23), 1_773_273_600);
    closes_at(Period::Hour(2026, 12, 31, 23), 1_798_761_600);
    closes_at(Period::Day(2026, 3, 11), 1_773_273_600);
    closes_at(Period::Day(2026, 12, 31), 1_798_761_600);
    closes_at(Period::Day(2024, 2, 28), 1_709_164_800);
    closes_at(Period::Day(2024, 2, 29), 1_709_251_200);
    closes_at(Period::Month(2026, 3), 1_775_001_600);
    closes_at(Period::Month(2026, 12), 1_798_761_600);
    closes_at(Period::Month(2000, 2), 951_868_800);
    closes_at(Period::Month(2100, 2), 4_107_542_400);
    closes_at(Period::Year(2026), 1_798_761_600);
    closes_at(Period::Year(9999), 253_402_300_800);
    closes_at(Period::Year(65535), 2_005_949_145_600);
    closes_at(Period::Hour(1970, 1, 1, 0), 3_600);
    closes_at(Period::Year(1969), 0);
    closes_at(Period::Year(0), 0);
}

#[test]
fn out_of_range_components_carry_over() {
    // Month 13 is January of the next year; hour 48 is two days later.
    closes_at(Period::Day(2025, 13, 0), 1_767_225_600);
    closes_at(Period::Hour(2026, 12, 29, 47), 1_798_675_200);
    closes_at(Period::Day(2026, 11, 60), 1_798_675_200);
    // A month number of 0 is the December before, up to day 30.
    closes_at(Period::Day(2027, 0, 29), 1_798_588_800);
    closes_at(Period::Day(2026, 0, 30), 1_767_225_600);
    closes_at(Period::Month(2026, 200), 1_798_761_600);
}

#[test]
fn months_have_their_days() {
    assert_eq!(days_in_month(2024, 2), 29);
    assert_eq!(days_in_month(2100, 2), 28);
    assert_eq!(days_in_month(2000, 2), 29);
    assert_eq!(days_in_month(2026, 4), 30);
    assert_eq!(days_in_month(2026, 12), 31);
    assert_eq!(days_in_month(2026, 0), 30);
    assert_eq!(days_in_month(2026, 13), 30);
}

#[test]
fn validation_names_the_component() {
    let reason = |p: Period| p.validate().err().unwrap().message();
    assert_eq!(
        reason(Period::Month(2026, 13)),
        "invalid period Month(2026, 13): month 13 out of range 1..=12"
    );
    assert_eq!(
        reason(Period::Day(26, 2, 29)),
        "invalid period Day(26, 2, 29): day 29 out of range 1..=28 for 0026-02"
    );
    assert_eq!(
        reason(Period::Hour(2026, 3, 11, 24)),
        "invalid period Hour(2026, 3, 11, 24): hour 24 out of range 0..=23"
    );
    // The month is named before the day, the day before the hour.
    assert_eq!(
        reason(Period::Hour(2026, 0, 0, 99)),
        "invalid period Hour(2026, 0, 0, 99): month 0 out of range 1..=12"
    );
}

#[test]
fn keys_and_their_quirks() {
    assert_eq!(Period::Year(7).key(), "0007");
    assert_eq!(Period::Month(12345, 3).key(), "12345-03");
    // A year of five digits is not read back.
    assert_eq!(parse_period_key("12345-03"), None);
    assert_eq!(parse_period_key("12345"), None);
    // Only digits stand in a key, and only as a key writes them.
    assert_eq!(parse_period_key("+026"), None);
    assert_eq!(parse_period_key("2026-+3"), None);
    assert_eq!(parse_period_key("2026-3"), None);
    assert_eq!(parse_period_key("2026-003"), None);
    assert_eq!(parse_period_key("026"), None);
    assert_eq!(parse_period_key("2026-03-11T+4"), None);
    assert_eq!(parse_period_key("2026-03-11T14 "), None);
    assert_eq!(parse_period_key("2026-03-11T24"), None);
    // The day must be one of the month.
    assert_eq!(parse_period_key("2026-02-30"), None);
    assert_eq!(parse_period_key("2026-02-31"), None);
    assert_eq!(parse_period_key("2026-04-31T00"), None);
    assert_eq!(parse_period_key("2026-02-29"), None);
    assert_eq!(parse_period_key("2024-02-29"), Some(Period::Day(2024, 2, 29)));
    assert_eq!(parse_period_key("2000-02-29T23"), Some(Period::Hour(2000, 2, 29, 23)));
    assert_eq!(parse_period_key("2100-02-29"), None);
    assert_eq!(parse_period_key("2026-00"), None);
    assert_eq!(parse_period_key("2026-03-00"), None);
    assert_eq!(parse_period_key("2026-03-11t14"), None);
    assert_eq!(parse_period_key("２０２６"), None);
    assert_eq!(parse_period_key("éé"), None);
}

#[test]
fn valid_periods_survive_their_key() {
    for y in [0u16, 1, 999, 1970, 2024, 9999] {
        for m in 1..=12u8 {
            for d in [1u8, 28, 29, 31] {
                for h in [0u8, 9, 23] {
                    let p = Period::Hour(y, m, d, h);
                    if p.validate().is_ok() {
                        assert_eq!(parse_period_key(&p.key()), Some(p));
                        let q = p.parent().unwrap();
                        assert_eq!(parse_period_key(&q.key()), Some(q));
                        assert_ne!(p.key(), q.key());
                    }
                }
            }
        }
    }
}

#[test]
fn every_period_is_told_by_its_key() {
    for p in [
        Period::Static,
        Period::Year(12345),
        Period::Month(2026, 200),
        Period::Day(2026, 2, 31),
        Period::Hour(65535, 0, 255, 99),
    ] {
        assert_eq!(period_with_key(&p.key()), Some(p));
    }
    assert_eq!(period_with_key("2026-2"), None);
    assert_eq!(period_with_key("65536"), None);
    assert_eq!(period_with_key("2026-256"), None);
    assert_eq!(period_with_key(""), None);
}

#[test]
fn keys_of_one_granularity_ascend_with_time() {
    let days = [
        Period::Day(999, 12, 31),
        Period::Day(2025, 12, 31),
        Period::Day(2026, 1, 2),
        Period::Day(2026, 1, 10),
        Period::Day(2026, 2, 1),
        Period::Day(9999, 1, 1),
    ];
    for i in 0..days.len() {
        for j in 0..days.len() {
            assert_eq!(days[i] < days[j], i < j);
            assert_eq!(days[i].key() < days[j].key(), i < j);
        }
    }
    let hours = [Period::Hour(2026, 3, 11, 9), Period::Hour(2026, 3, 11, 10)];
    assert!(hours[0] < hours[1] && hours[0].key() < hours[1].key());
}

#[test]
fn periods_are_ordered_by_variant_first() {
    let ordered = [
        Period::Static,
        Period::Hour(2026, 1, 1, 0),
        Period::Hour(2026, 1, 1, 1),
        Period::Day(2025, 1, 1),
        Period::Month(2024, 1),
        Period::Year(2023),
    ];
    for i in 0..ordered.len() {
        for j in 0..ordered.len() {
            assert_eq!(ordered[i] < ordered[j], i < j);
            assert_eq!(ordered[i].cmp(&ordered[j]), i.cmp(&j));
            assert_eq!(ordered[i].partial_cmp(&ordered[j]), Some(i.cmp(&j)));
        }
    }
}

#[test]
fn children_close_before_their_parents() {
    let p = Period::Hour(2024, 2, 29, 23);
    for now in [0, 1_709_251_199, 1_709_251_200, 1_735_689_599, 1_735_689_600] {
        let mut child = p;
        while let Some(parent) = child.parent() {
            assert!(!parent.is_closed(now) || child.is_closed(now));
            child = parent;
        }
    }
}

#[test]
fn catalog_keys_are_distinct() {
    let a = catalog_key("a", Granularity::Day, &Period::Day(2026, 3, 11));
    let b = catalog_key("a", Granularity::Hour, &Period::Day(2026, 3, 11));
    let c = catalog_key("b", Granularity::Day, &Period::Day(2026, 3, 11));
    let d = catalog_key("a", Granularity::Static, &Period::Static);
    assert_eq!(d, "a/none/_static");
    assert!(a != b && a != c && b != c && a != d);
}

#[test]
fn ancestors_step_by_step() {
    let mut walk = Period::Day(2026, 3, 11).ancestors();
    assert_eq!(walk.next(), Some(Period::Month(2026, 3)));
    assert_eq!(walk.next(), Some(Period::Year(2026)));
    assert_eq!(walk.next(), None);
    assert_eq!(walk.next(), None);
}

#[test]
fn numbers_as_text() {
    let mut out = String::from(">");
    push_decimal(&mut out, 0);
    push_decimal(&mut out, u64::MAX);
    push_padded(&mut out, 42, 5);
    push_padded(&mut out, 123456, 3);
    assert_eq!(out, ">01844674407370955161500042123456");
    assert_eq!(parse_unsigned(b"0042", 100), Some(42));
    assert_eq!(parse_unsigned(b"+7", 100), None);
    assert_eq!(parse_unsigned(b"101", 100), None);
    assert_eq!(parse_unsigned(b"", 100), None);
    assert_eq!(parse_unsigned(b"+", 100), None);
    assert_eq!(parse_unsigned(b"-1", 100), None);
    assert_eq!(parse_unsigned(b"1x", 100), None);
    assert_eq!(parse_unsigned(b"18446744073709551615", u64::MAX), Some(u64::MAX));
    assert_eq!(parse_unsigned(b"18446744073709551616", u64::MAX), None);
    assert!(str_eq("é", "é"));
    assert!(!str_eq("é", "e"));
}
