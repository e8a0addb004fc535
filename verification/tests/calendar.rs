use scene_tools::calendar::{civil_date, utc, Date};

#[test]
fn utc_writes_known_instants() {
    assert_eq!(utc(0), "1970-01-01 00:00");
    assert_eq!(utc(68169600), "1972-02-29 00:00");
    assert_eq!(utc(951782400), "2000-02-29 00:00");
    assert_eq!(utc(1700000000), "2023-11-14 22:13");
    assert_eq!(utc(4102444799), "2099-12-31 23:59");
    assert_eq!(utc(4107542400), "2100-03-01 00:00");
}

#[test]
fn dates_follow_each_other() {
    assert_eq!(civil_date(58), Date { year: 1970, month: 2, day: 28 });
    assert_eq!(civil_date(59), Date { year: 1970, month: 3, day: 1 });
    assert_eq!(civil_date(364), Date { year: 1970, month: 12, day: 31 });
    assert_eq!(civil_date(365), Date { year: 1971, month: 1, day: 1 });
}

#[test]
fn utc_reaches_the_end_of_its_range() {
    assert_eq!(utc(u64::MAX), "584554051223-11-09 07:00");
}

#[test]
fn stamps_are_ordered_like_time() {
    let last = 253_402_300_799;
    assert_eq!(utc(last), "9999-12-31 23:59");
    assert_eq!(utc(last).len(), 16);
    assert_eq!(utc(last + 1), "10000-01-01 00:00");
    assert!(utc(999_999_900) < utc(1_000_000_000));
    assert_eq!(utc(60), utc(119));
    assert_ne!(utc(119), utc(120));
}
