use dbx_logviewer::clock::{millis_at, millis_of, now_millis};
use dbx_logviewer::filter::Filter;
use dbx_logviewer::session::{stream_id, Sessions, Tails};
use dbx_logviewer::tail::{
    last_lines, new_lines, poll_offset, read_finished, read_new_lines, read_span, split_lines,
    tail_from_end, tail_probe, Follower, Span,
};

fn all() -> Filter {
    Filter::build(&None, &None, &None, &None, None).unwrap()
}

fn only(keyword: &str) -> Filter {
    Filter::build(&Some(keyword.to_string()), &None, &None, &None, None).unwrap()
}

#[test]
fn lines_are_split_as_std_does() {
    for text in ["", "\n", "a", "a\n", "a\nb", "a\r\nb\r\n", "a\r", "\r\n\n\r", "a\n\nb\r\r\n", "é\n漢\r\nx"] {
        let expected: Vec<String> = text.lines().map(|l| l.to_string()).collect();
        assert_eq!(split_lines(text), expected, "{text:?}");
    }
}

#[test]
fn the_last_lines_are_sent_first() {
    let a = last_lines("one\ntwo\nthree\n", false, 2, &all()).unwrap();
    assert_eq!(a.lines, vec!["two", "three"]);
    assert!(a.reset);
    // where the front is cut off the first line is left out
    assert_eq!(last_lines("ne\ntwo\nthree", true, 9, &all()).unwrap().lines, vec!["two", "three"]);
    // the filter applies to the last lines only
    assert_eq!(last_lines("x1\ny\nx2\n", false, 2, &only("x")).unwrap().lines, vec!["x2"]);
    assert!(last_lines("x1\ny\nz\n", false, 2, &only("x")).is_none());
    assert!(last_lines("x\n", false, 0, &all()).is_none());
    assert!(last_lines("", true, 5, &all()).is_none());
}

#[test]
fn the_end_of_a_file_is_probed() {
    assert_eq!(tail_probe(100, 0), None);
    assert_eq!(tail_probe(100, 5), Some(100));
    assert_eq!(tail_probe(300_000, 5), Some(262_144));
    let a = tail_from_end(b"ab\xffc\nx\n", 7, 5, &all()).unwrap();
    assert_eq!(a.lines, vec!["ab\u{fffd}c", "x"]);
    let a = tail_from_end(b"ab\xffc\nx\n", 100, 5, &all()).unwrap();
    assert_eq!(a.lines, vec!["x"]);
}

#[test]
fn added_lines_are_sent_when_they_are_finished() {
    let f = read_new_lines(b"a\nb\n", 10, &all());
    let a = f.append.unwrap();
    assert_eq!(a.lines, vec!["a", "b"]);
    assert!(!a.reset);
    assert_eq!(f.offset, 14);
    // a line that may go on is read again as a whole, and nothing before it
    let f = read_new_lines(b"a\nbcd", 10, &all());
    assert_eq!(f.append.unwrap().lines, vec!["a"]);
    assert_eq!(f.offset, 12);
    let f = read_new_lines(b"bcde\r\n", 12, &all());
    assert_eq!(f.append.unwrap().lines, vec!["bcde"]);
    assert_eq!(f.offset, 18);
    let f = read_new_lines("a\né漢".as_bytes(), 0, &all());
    assert_eq!(f.offset, 2);
    // at the front of a file
    let f = read_new_lines(b"abc", 0, &all());
    assert!(f.append.is_none());
    assert_eq!(f.offset, 0);
    // bytes that are not UTF-8 are counted as they stand in the file
    let f = read_new_lines(b"\xff\n\xff\xfe", 5, &all());
    assert_eq!(f.append.unwrap().lines, vec!["\u{fffd}"]);
    assert_eq!(f.offset, 7);
    // nothing is sent where no line is shown
    assert!(read_new_lines(b"a\nb\n", 0, &only("x")).append.is_none());
    let f = read_new_lines(b"", 9, &all());
    assert!(f.append.is_none());
    assert_eq!(f.offset, 9);
}

#[test]
fn finished_lines_are_those_of_the_text() {
    for text in ["", "a", "a\n", "a\r\nb", "\n\n", "é\r\n漢\nx\r", "\r\n\r"] {
        let n = text.rfind('\n').map(|k| k + 1).unwrap_or(0);
        let expected: Vec<String> = text[..n].lines().map(|l| l.to_string()).collect();
        assert_eq!(read_finished(text.as_bytes()), (expected, n), "{text:?}");
    }
    let lines = vec!["x1".to_string(), "y".to_string()];
    assert_eq!(new_lines(&lines, &only("x")).unwrap().lines, vec!["x1"]);
    assert!(new_lines(&lines, &only("z")).is_none());
}

#[test]
fn however_a_file_is_cut_each_line_is_sent_once() {
    let data = "one\n漢字 two\r\n\nthree four\nlast".as_bytes();
    for step in 1..=data.len() {
        let mut f = Follower::start(0, all());
        let mut sent: Vec<String> = Vec::new();
        let mut len = 0;
        while len < data.len() {
            len = std::cmp::min(len + step, data.len());
            if let Some(span) = f.poll(Some(len as u64), Some(len as u64)) {
                let (a, b) = (span.at as usize, (span.at + span.take) as usize);
                if let Some(append) = f.take_in(&data[a..b]) {
                    sent.extend(append.lines);
                }
            }
        }
        assert_eq!(sent, vec!["one", "漢字 two", "", "three four"]);
        assert_eq!(f.offset as usize, data.len() - 4);
    }
}

#[test]
fn polling_follows_the_length() {
    assert_eq!(poll_offset(10, Some(20)), Some(10));
    assert_eq!(poll_offset(10, Some(10)), Some(10));
    assert_eq!(poll_offset(10, Some(9)), Some(0));
    assert_eq!(poll_offset(10, None), None);
    assert_eq!(read_span(10, Some(10)), None);
    assert_eq!(read_span(10, Some(5)), None);
    assert_eq!(read_span(10, Some(30)), Some(20));
    assert_eq!(read_span(0, Some(5_000_000)), Some(1_048_576));
    assert_eq!(read_span(0, None), None);
}

#[test]
fn sessions_are_opened_replaced_and_closed() {
    let mut s = Sessions::new();
    assert!(s.session("a").is_err());
    s.connect("a", vec!["/x".to_string()]).unwrap();
    s.connect("b", vec!["/y".to_string()]).unwrap();
    assert_eq!(s.session("a").unwrap().log_dirs, vec!["/x"]);
    s.connect("a", vec!["/z".to_string()]).unwrap();
    assert_eq!(s.session("a").unwrap().log_dirs, vec!["/z"]);
    // a refused connection leaves the open one as it is
    assert!(s.connect("a", vec!["/1/d".to_string(), "/2/d".to_string()]).is_err());
    assert_eq!(s.session("a").unwrap().log_dirs, vec!["/z"]);
    s.disconnect("a");
    assert_eq!(s.session("a").unwrap_err().message, "连接未建立：请先连接后再操作");
    assert_eq!(s.session("b").unwrap().log_dirs, vec!["/y"]);
    s.disconnect("missing");
}

#[test]
fn streams_are_named_and_stopped() {
    assert_eq!(stream_id("c", "logs/a.log", 1756523060000), "c:logs/a.log:1756523060000");
    let mut t: Tails<u32> = Tails::new();
    t.start(&stream_id("c", "a", 1), 1);
    t.start(&stream_id("c", "b", 2), 2);
    t.start(&stream_id("cc", "a", 3), 3);
    t.start(&stream_id("d", "a", 4), 4);
    assert_eq!(t.stop("c:a:1"), Some(1));
    assert_eq!(t.stop("c:a:1"), None);
    t.start(&stream_id("c", "a", 5), 5);
    let mut flags = t.stop_all("c");
    flags.sort();
    assert_eq!(flags, vec![2, 5]);
    assert_eq!(t.stop("c:b:2"), None);
    assert_eq!(t.stop("cc:a:3"), Some(3));
    assert_eq!(t.stop("d:a:4"), Some(4));
}

#[test]
fn a_colon_in_a_name_joins_connections() {
    let mut t: Tails<u32> = Tails::new();
    t.start(&stream_id("a:b", "f", 1), 1);
    assert_eq!(t.stop_all("a"), vec![1]);
    t.start(&stream_id("a", "f", 2), 2);
    t.start(&stream_id("a", "g", 3), 3);
    assert_eq!(t.stop_all("a:f"), vec![2]);
    assert_eq!(t.stop("a:g:3"), Some(3));
}

#[test]
fn the_clock_is_read() {
    let a = now_millis();
    let b = now_millis();
    assert!(a > 1_600_000_000_000 && b >= a);
    let epoch = std::time::SystemTime::UNIX_EPOCH;
    let later = epoch + std::time::Duration::from_millis(1234);
    assert_eq!(millis_of(&later.duration_since(epoch)), 1234);
    assert_eq!(millis_of(&epoch.duration_since(later)), 0);
    // milliseconds are counted from the start of 1970
    assert_eq!(millis_at(&later), 1234);
    assert_eq!(millis_at(&epoch), 0);
    assert_eq!(millis_at(&(epoch - std::time::Duration::from_millis(5))), 0);
}

#[test]
fn a_follower_reads_on_and_starts_over() {
    let mut f = Follower::start(10, only("x"));
    assert_eq!(f.offset, 10);
    // nothing was added, or the file cannot be read at the moment
    assert_eq!(f.poll(Some(10), Some(10)), None);
    assert_eq!(f.poll(None, Some(20)), None);
    assert_eq!(f.poll(Some(20), None), None);
    assert_eq!(f.offset, 10);
    assert_eq!(f.poll(Some(15), Some(16)), Some(Span { at: 10, take: 6 }));
    let a = f.take_in(b"x1\ny\nx").unwrap();
    assert_eq!(a.lines, vec!["x1"]);
    assert_eq!(f.offset, 15);
    assert_eq!(f.poll(Some(20), Some(20)), Some(Span { at: 15, take: 5 }));
    assert!(f.take_in(b"x2345").is_none());
    assert_eq!(f.offset, 15);
    assert_eq!(f.take_in(b"x2345\n").unwrap().lines, vec!["x2345"]);
    assert_eq!(f.offset, 21);
    // a file that has become shorter is read from its front
    assert_eq!(f.poll(Some(5), Some(7)), Some(Span { at: 0, take: 7 }));
    assert_eq!(f.offset, 0);
}
