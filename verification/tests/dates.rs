use dbx_logviewer::calendar::{days_from_civil, epoch_secs, num_from_epoch};
use dbx_logviewer::text::{decimal_text, split_text, trim, upper_text};
use dbx_logviewer::time::{parse_time_num, tz_offset_after};

#[test]
fn days_are_counted_from_1970() {
    assert_eq!(days_from_civil(1970, 1, 1), 0);
    assert_eq!(days_from_civil(1970, 1, 2), 1);
    assert_eq!(days_from_civil(1969, 12, 31), -1);
    assert_eq!(days_from_civil(2000, 2, 29), 11016);
    assert_eq!(days_from_civil(2000, 3, 1), 11017);
    assert_eq!(days_from_civil(1, 1, 1), -719162);
    assert_eq!(epoch_secs(1970, 1, 2, 3, 4, 5), 97445);
    assert_eq!(epoch_secs(2026, 8, 30, 11, 4, 20), 1788087860);
}

#[test]
fn seconds_become_local_stamps() {
    assert_eq!(num_from_epoch(0), 19700101080000);
    assert_eq!(num_from_epoch(-28800), 19700101000000);
    assert_eq!(num_from_epoch(-28801), 19691231235959);
    assert_eq!(num_from_epoch(1788087860), 20260830190420);
    // a stamp that is read eight hours to the east is the one that was written
    for (y, m, d) in [(1999, 12, 31), (2000, 2, 29), (2024, 2, 29), (2100, 3, 1)] {
        let e = epoch_secs(y, m, d, 23, 59, 58) - 28800;
        assert_eq!(num_from_epoch(e), y * 10000000000 + m * 100000000 + d * 1000000 + 235958);
    }
}

#[test]
fn zones_are_read_behind_the_seconds() {
    let zone = |s: &str| tz_offset_after(s.as_bytes(), s, 0);
    assert_eq!(zone("Z"), Some(0));
    assert_eq!(zone(".123Z"), Some(0));
    assert_eq!(zone("+08:00"), Some(28800));
    assert_eq!(zone("-0530"), Some(-19800));
    assert_eq!(zone("+05"), Some(18000));
    assert_eq!(zone("+05:3"), Some(18000));
    assert_eq!(zone("+15:00"), None);
    assert_eq!(zone("+05:60"), None);
    assert_eq!(zone("+5"), None);
    assert_eq!(zone(""), None);
    assert_eq!(zone(" x"), None);
    assert_eq!(tz_offset_after(b"x", "x", 9), None);
}

#[test]
fn times_are_searched_in_a_line() {
    // a date without a time nearby is passed over
    let far = format!("2026-01-02 {} 2026-03-04 05:06:07", "x".repeat(40));
    assert_eq!(parse_time_num(&far), Some(20260304050607));
    assert_eq!(parse_time_num("2026-1-2T3:04:05 then 11:22:33"), Some(20260102112233));
    assert_eq!(parse_time_num("2026-123-01 11:22:33"), None);
    assert_eq!(parse_time_num("2026-01/02 11:22:33"), None);
    assert_eq!(parse_time_num("12026-01-02 11:22:33"), Some(20260102112233));
    assert_eq!(parse_time_num("[2026/12/31] 23:59:59-01:00"), Some(20270101085959));
    assert_eq!(parse_time_num("漢字2026-01-02 11:22:33漢"), Some(20260102112233));
    assert_eq!(parse_time_num(""), None);
}

#[test]
fn text_helpers_agree_with_std() {
    for s in ["", "  ", " a b ", "\u{3000}x\u{a0}", "\t\n漢\r", "\u{200b}x", "\u{85}y\u{1680}", "\u{2028}z\u{205f}"] {
        assert_eq!(trim(s), s.trim(), "{s:?}");
    }
    for s in ["", "abcXYZ", "é-ß漢 z{`"] {
        assert_eq!(upper_text(s), s.to_ascii_uppercase());
    }
    for s in ["", ",", "a,b", ",a,,b,"] {
        assert_eq!(split_text(s, ','), s.split(',').map(|p| p.to_string()).collect::<Vec<_>>());
    }
    for n in [0u128, 9, 10, 1024, u128::MAX] {
        assert_eq!(decimal_text(n), n.to_string());
    }
}

#[test]
fn days_follow_each_other() {
    let mut last = days_from_civil(1999, 12, 31);
    for y in 2000..2005i64 {
        for m in 1..=12i64 {
            let leap = (y % 4 == 0 && y % 100 != 0) || y % 400 == 0;
            let days = match m {
                2 => 28 + leap as i64,
                4 | 6 | 9 | 11 => 30,
                _ => 31,
            };
            for d in 1..=days {
                let n = days_from_civil(y, m, d);
                assert_eq!(n, last + 1);
                last = n;
                // the day is the date that was counted
                let stamp = num_from_epoch(n * 86400 - 28800);
                assert_eq!(stamp as i64, (y * 10000 + m * 100 + d) * 1000000);
            }
        }
    }
}

#[test]
fn later_moments_have_larger_stamps() {
    let mut last = num_from_epoch(-100_000_000);
    let mut e = -100_000_000i64;
    while e < 4_000_000_000 {
        e += 7_654_321;
        let n = num_from_epoch(e);
        assert!(n > last);
        last = n;
    }
}
