use dbx_logviewer::download::DownloadScan;
use dbx_logviewer::filter::Filter;
use dbx_logviewer::search::{
    next_step, take_page, ContextScan, Found, Hit, PageView, SearchReply, SearchScan, SearchStep,
    MAX_RETURN_LINES,
};

fn filter(keyword: &str) -> Filter {
    Filter::build(&Some(keyword.to_string()), &None, &None, &None, None).unwrap()
}

fn view(page: u64, page_size: u64, newest_first: bool, context: u64) -> PageView {
    PageView { page, page_size, newest_first, context }
}

fn search(lines: &[Option<String>], filter: Filter, view: PageView) -> SearchReply {
    let mut scan = SearchScan::new(filter);
    for line in lines {
        if !scan.feed(line.clone()) {
            break;
        }
    }
    match next_step(scan.finish(), view) {
        SearchStep::Reply(r) => r,
        SearchStep::Expand(mut e) => {
            for line in lines {
                if !e.scan.feed(line.clone()) {
                    break;
                }
            }
            e.finish()
        }
    }
}

fn ten_lines() -> Vec<Option<String>> {
    (1..=10)
        .map(|i| {
            Some(if i == 5 {
                "2026-08-30 11:04:20 ERROR boom".to_string()
            } else {
                format!("2026-08-30 11:04:{:02} INFO filler {i}", i)
            })
        })
        .collect()
}

fn numbers(r: &SearchReply) -> Vec<u64> {
    r.lines.iter().map(|l| l.no).collect()
}

#[test]
fn search_context_expands_window_with_match_flag() {
    let r = search(&ten_lines(), filter("boom"), view(1, 10, true, 2));
    assert_eq!(r.total, 1);
    assert_eq!(numbers(&r), vec![7, 6, 5, 4, 3]);
    assert_eq!(r.lines.iter().filter(|l| l.hit).count(), 1);
    assert!(r.lines.iter().find(|l| l.no == 5).unwrap().hit);
    let r0 = search(&ten_lines(), filter("boom"), view(1, 10, true, 0));
    assert_eq!(r0.lines.len(), 1);
    assert!(r0.lines[0].hit);
    let r1 = search(&ten_lines(), filter("filler 1"), view(1, 10, true, 5));
    let nos = numbers(&r1);
    assert!(nos.contains(&1) && !nos.contains(&0));
}

#[test]
fn hits_keep_their_line_numbers() {
    let lines = vec![Some("a1".to_string()), None, Some("b".to_string()), Some("a2".to_string())];
    let r = search(&lines, filter("a"), view(1, 10, false, 0));
    assert_eq!(r.total, 2);
    assert!(!r.truncated);
    assert_eq!(numbers(&r), vec![1, 4]);
    assert_eq!(r.lines[1].text, "a2");
    assert_eq!((r.page, r.page_size), (1, 10));
    let r = search(&lines, filter("a"), view(1, 10, true, 0));
    assert_eq!(numbers(&r), vec![4, 1]);
    // an unreadable line is left out of the context
    let r = search(&lines, filter("a1"), view(1, 10, false, 2));
    assert_eq!(numbers(&r), vec![1, 3]);
}

#[test]
fn pages_follow_each_other() {
    let lines: Vec<Option<String>> = (1..=7).map(|i| Some(format!("x{i}"))).collect();
    let page = |p: u64| numbers(&search(&lines, filter("x"), view(p, 3, false, 0)));
    assert_eq!(page(1), vec![1, 2, 3]);
    assert_eq!(page(2), vec![4, 5, 6]);
    assert_eq!(page(3), vec![7]);
    assert!(page(4).is_empty());
    let back = |p: u64| numbers(&search(&lines, filter("x"), view(p, 3, true, 0)));
    assert_eq!(back(1), vec![7, 6, 5]);
    assert_eq!(back(3), vec![1]);
    // past the last page nothing is shown, with lines around hits or without
    assert!(search(&lines, filter("x"), view(9, 3, true, 4)).lines.is_empty());
    assert_eq!(search(&lines, filter("x"), view(9, 3, true, 4)).total, 7);
}

#[test]
fn a_page_beyond_all_numbers_is_empty() {
    let hits: Vec<Hit> = (1..=4).map(|no| Hit { no, text: String::new() }).collect();
    assert!(take_page(&hits, &view((1u64 << 62) + 1, 500, false, 0)).is_empty());
    assert!(take_page(&hits, &view(u64::MAX, 500, false, 0)).is_empty());
    assert_eq!(take_page(&hits, &view(1, u64::MAX, false, 0)).len(), 4);
}

#[test]
fn windows_overlap_and_end() {
    let lines: Vec<Option<String>> = (1..=9).map(|i| Some(format!("l{i}"))).collect();
    let hits = vec![
        Hit { no: 3, text: "l3".to_string() },
        Hit { no: 5, text: "l5".to_string() },
    ];
    let mut scan = ContextScan::new(&hits, 1);
    let mut fed = 0;
    for line in &lines {
        fed += 1;
        if !scan.feed(line.clone()) {
            break;
        }
    }
    assert_eq!(fed, 6);
    let out = scan.finish(false);
    assert_eq!(out.iter().map(|l| (l.no, l.hit)).collect::<Vec<_>>(), vec![
        (2, false),
        (3, true),
        (4, false),
        (5, true),
        (6, false)
    ]);
    assert_eq!(out[0].text, "l2");
}

#[test]
fn a_context_without_lines_is_empty() {
    let hits = vec![Hit { no: 3, text: "l3".to_string() }];
    assert!(ContextScan::new(&hits, 2).finish(true).is_empty());
    let step = next_step(Found { hits, truncated: false }, view(1, 10, true, 2));
    match step {
        SearchStep::Expand(e) => {
            let r = e.finish();
            assert_eq!((r.total, r.lines.len()), (1, 0));
        }
        SearchStep::Reply(_) => panic!("the file is read once more"),
    }
}

#[test]
fn a_search_ends_with_the_first_line_that_is_cut_off() {
    let mut scan = SearchScan::new(filter(""));
    let mut fed = 0;
    while scan.feed(Some("x".to_string())) {
        fed += 1;
    }
    assert_eq!(fed, MAX_RETURN_LINES);
    assert!(!scan.feed(Some("y".to_string())));
    let found = scan.finish();
    assert!(found.truncated);
    assert_eq!(found.hits.len(), 20000);
    assert_eq!(found.hits[19999].no, 20000);
    assert_eq!(found.hits[19999].text, "x");
}

#[test]
fn nothing_is_cut_off_of_just_enough_lines() {
    let mut scan = SearchScan::new(filter("x"));
    for _ in 0..MAX_RETURN_LINES {
        assert!(scan.feed(Some("x".to_string())));
    }
    assert!(scan.feed(Some("y".to_string())));
    let found = scan.finish();
    assert!(!found.truncated);
    assert_eq!(found.hits.len(), 20000);
}

#[test]
fn filters_combine() {
    let line = "2026-08-30 11:04:20 warn disk full";
    let build = |k: &str, l: &str, s: &str, e: &str, r: bool| {
        Filter::build(
            &Some(k.to_string()),
            &Some(l.to_string()),
            &Some(s.to_string()),
            &Some(e.to_string()),
            Some(r),
        )
    };
    assert!(build("disk", "Warn", "", "", false).unwrap().shows(line));
    assert!(!build("disk", "ERROR", "", "", false).unwrap().shows(line));
    assert!(build("d.sk", "ALL", "", "", true).unwrap().shows(line));
    assert!(!build("d.sk", "ALL", "", "", false).unwrap().shows(line));
    assert!(build("", "ALL", "2026-08-30 11:04:20", "2026/8/30 11:04:20", false).unwrap().shows(line));
    assert!(!build("", "ALL", "2026-08-30 11:04:21", "", false).unwrap().shows(line));
    // a bound that names no time is none
    assert!(build("", "ALL", "yesterday", "", false).unwrap().shows("no time"));
    // a plain keyword selects the same lines as an expression
    assert!(build("disk full", "ALL", "", "", true).unwrap().shows(line));
    assert_eq!(
        build("[z-a]", "ALL", "", "", true).unwrap_err().message,
        "正则表达式无效：字符范围倒置"
    );
}

#[test]
fn downloads_come_in_chunks() {
    let lines: Vec<Option<String>> = vec![
        Some("x1".to_string()),
        Some("skip".to_string()),
        None,
        Some("x2".to_string()),
        Some("x3".to_string()),
        Some("x4".to_string()),
    ];
    let chunk = |offset: u64, length: u64| {
        let mut d = DownloadScan::new(filter("x"), offset, length);
        for line in &lines {
            if !d.feed(line.clone()) {
                break;
            }
        }
        d.finish()
    };
    let a = chunk(0, 3);
    assert_eq!((a.lines.clone(), a.next_offset, a.eof), (vec!["x1".to_string(), "x2".to_string(), "x3".to_string()], 3, false));
    let b = chunk(a.next_offset, 3);
    assert_eq!((b.lines, b.next_offset, b.eof), (vec!["x4".to_string()], 4, true));
    let c = chunk(4, 3);
    assert_eq!((c.lines.len(), c.next_offset, c.eof), (0, 4, true));
    // a chunk that is filled by the last line is the last one
    let d = chunk(2, 2);
    assert_eq!((d.lines.len(), d.next_offset, d.eof), (2, 4, true));
    let e = chunk(u64::MAX, 1);
    assert_eq!((e.lines.len(), e.next_offset, e.eof), (0, u64::MAX, true));
}

#[test]
fn the_chunks_of_a_download_are_the_whole() {
    let lines: Vec<Option<String>> =
        (0..23).map(|i| if i % 5 == 4 { None } else { Some(format!("x{i}")) }).collect();
    let wanted: Vec<String> = lines.iter().flatten().cloned().collect();
    for length in [1u64, 2, 7, 18, 100] {
        let mut got: Vec<String> = Vec::new();
        let mut offset = 0;
        loop {
            let mut d = DownloadScan::new(filter("x"), offset, length);
            for line in &lines {
                if !d.feed(line.clone()) {
                    break;
                }
            }
            let mut chunk = d.finish();
            got.append(&mut chunk.lines);
            offset = chunk.next_offset;
            if chunk.eof {
                break;
            }
        }
        assert_eq!(got, wanted);
    }
}
