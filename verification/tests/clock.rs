use smb_heat_spike::clock::{civil_from_days, emitted_at, rfc3339_utc};
use smb_heat_spike::db::strip_utc_suffix;

#[test]
fn rfc3339_known_instants() {
    assert_eq!(rfc3339_utc(0), "1970-01-01T00:00:00Z");
    assert_eq!(rfc3339_utc(1_781_136_000), "2026-06-11T00:00:00Z");
}

#[test]
fn civil_dates() {
    assert_eq!(civil_from_days(0), (1970, 1, 1));
    assert_eq!(civil_from_days(-1), (1969, 12, 31));
    assert_eq!(civil_from_days(11_016), (2000, 2, 29));
    assert_eq!(civil_from_days(11_017), (2000, 3, 1));
    assert_eq!(civil_from_days(-719_468), (0, 3, 1));
    assert_eq!(civil_from_days(-719_469), (0, 2, 29));
    assert_eq!(civil_from_days(-25_509), (1900, 2, 28));
    assert_eq!(civil_from_days(-25_508), (1900, 3, 1));
    assert_eq!(civil_from_days(2_932_896), (9999, 12, 31));
}

#[test]
fn rfc3339_edges() {
    assert_eq!(rfc3339_utc(-1), "1969-12-31T23:59:59Z");
    assert_eq!(rfc3339_utc(951_827_696), "2000-02-29T12:34:56Z");
    assert_eq!(rfc3339_utc(-62_167_219_200), "0000-01-01T00:00:00Z");
    assert_eq!(rfc3339_utc(-62_167_219_201), "-001-12-31T23:59:59Z");
    assert!(rfc3339_utc(i64::MIN).ends_with("Z"));
    assert!(rfc3339_utc(i64::MAX).ends_with("Z"));
}

#[test]
fn emitted_timestamps_carry_a_zero_offset() {
    assert_eq!(emitted_at(1_781_049_600, 0), "2026-06-10T00:00:00+00:00");
    assert_eq!(emitted_at(1_781_049_600, 500_000_000), "2026-06-10T00:00:00.500+00:00");
    assert_eq!(emitted_at(1_781_049_600, 1_000), "2026-06-10T00:00:00.000001+00:00");
    assert_eq!(emitted_at(1_781_049_600, 1), "2026-06-10T00:00:00.000000001+00:00");
    assert_eq!(
        strip_utc_suffix(&emitted_at(253_402_300_799, 7_000_000)),
        Some("9999-12-31T23:59:59.007")
    );
    // Beyond what the calendar holds it is the epoch.
    assert_eq!(emitted_at(i64::MAX, 0), "1970-01-01T00:00:00+00:00");
}
