use dbx_logviewer::filter::match_line;
use dbx_logviewer::regex::SimpleRegex;
use dbx_logviewer::time::parse_time_num;

#[test]
fn parse_time_supports_dash_slash_and_t() {
    assert_eq!(parse_time_num("2026-08-30 11:04:20 INFO ok"), Some(20260830110420));
    assert_eq!(parse_time_num("2026/8/30 11:04:20 INFO ok"), Some(20260830110420));
    // Z is UTC: 11:04 there is 19:04 here
    assert_eq!(parse_time_num("2026-08-30T11:04:20Z INFO ok"), Some(20260830190420));
    // the same with milliseconds
    assert_eq!(
        parse_time_num("timestamp=2026-09-25T14:31:29.250Z level=INFO"),
        Some(20260925223129)
    );
    // an explicit distance: +00:00 is Z, +08:00 is local time
    assert_eq!(parse_time_num("2026-08-30T11:04:20+00:00 x"), Some(20260830190420));
    assert_eq!(parse_time_num("2026-08-30T11:04:20+0800 x"), Some(20260830110420));
    assert_eq!(parse_time_num("2026-08-30 19:04:20+08 x"), Some(20260830190420));
    // into the next day
    assert_eq!(parse_time_num("2026-08-30T23:04:20Z x"), Some(20260831070420));
    assert_eq!(parse_time_num("no timestamp here"), None);
}

#[test]
fn match_line_combines_keyword_level_and_range() {
    let line = "2026-08-30 11:04:20 ERROR aiban-file boom";
    assert!(match_line(line, "aiban", "ERROR", None, None, None));
    assert!(!match_line(line, "aiban", "WARN", None, None, None)); // another level
    assert!(!match_line(line, "other", "ALL", None, None, None)); // another keyword
    assert!(match_line(line, "", "ALL", Some(20260830110000), Some(20260830110500), None));
    assert!(!match_line(line, "", "ALL", Some(20260830120000), None, None)); // too early
    // a line without a timestamp is shown where no range is asked for
    assert!(match_line("plain line", "", "ALL", None, None, None));
    assert!(!match_line("plain line", "", "ALL", Some(20260830110000), None, None));
}

#[test]
fn regex_subset_matches_common_patterns() {
    let ok = |pat: &str, text: &str| {
        let r = SimpleRegex::compile(pat).expect("the pattern is valid");
        assert!(r.is_match(text), "should match: {pat} vs {text}");
    };
    let no = |pat: &str, text: &str| {
        let r = SimpleRegex::compile(pat).expect("the pattern is valid");
        assert!(!r.is_match(text), "should not match: {pat} vs {text}");
    };
    ok("ERROR", "2026-08-30 ERROR boom");
    ok("ERR.*boom", "ERROR big boom");
    no("ERR.*boom", "ERROR silence");
    ok("timeout:\\s*\\d+ms", "timeout:   42ms");
    no("timeout:\\s*\\d+ms", "timeout: slow");
    ok("a.c", "axc");
    no("a.c", "ac");
    ok("^2026-08-30", "2026-08-30 INFO ok");
    no("^INFO", "2026-08-30 INFO ok");
    ok("ok$", "all ok");
    no("ok$", "ok then more");
    ok("WARN|ERROR", "WARN here");
    ok("(WARN|ERROR) here", "ERROR here");
    ok("[0-9]{4}-[0-9]{2}", "on 2026-08 done");
    ok("\\d{4}", "year 2026");
    ok("[^0-9]+", "abc");
    no("[^0-9]+", "123");
    ok("colou?r", "color");
    ok("colou?r", "colour");
    // patterns that are refused
    assert!(SimpleRegex::compile("a(b").is_err()); // no )
    assert!(SimpleRegex::compile("*a").is_err()); // nothing to repeat
    assert!(SimpleRegex::compile("[z-a]").is_err()); // the range is inverted
    // in the filter an expression is case sensitive, and long lines are
    // searched for the keyword itself
    let r = SimpleRegex::compile("ERR.*boom").unwrap();
    assert!(match_line("ERROR big boom", "ERR.*boom", "ALL", None, None, Some(&r)));
    assert!(!match_line("error big boom", "ERR.*boom", "ALL", None, None, Some(&r)));
    let long = "x".repeat(100_001);
    assert!(match_line(&format!("{long}ERR"), "ERR", "ALL", None, None, Some(&r)));
    assert!(!match_line(&long, "ERR", "ALL", None, None, Some(&r)));
}
