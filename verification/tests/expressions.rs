use dbx_logviewer::regex::{Rx, SimpleRegex};
use dbx_logviewer::regex_parser::RxParser;

fn error(pat: &str) -> String {
    SimpleRegex::compile(pat).unwrap_err()
}

fn is_match(pat: &str, text: &str) -> bool {
    SimpleRegex::compile(pat).unwrap().is_match(text)
}

#[test]
fn errors_say_what_is_wrong() {
    assert_eq!(error("a(b"), "缺少 )");
    assert_eq!(error("*a"), "位置 0 的 * 缺少左操作数");
    assert_eq!(error("ab|+"), "位置 3 的 + 缺少左操作数");
    assert_eq!(error("[z-a]"), "字符范围倒置");
    assert_eq!(error("[a-"), "字符类未闭合");
    assert_eq!(error("[a\\"), "悬空 \\");
    assert_eq!(error("a\\"), "悬空 \\");
    assert_eq!(error("a{x}"), "期望数字");
    assert_eq!(error("a{2"), "缺少 }");
    assert_eq!(error("a{3,2}"), "{m,n} 要求 n>=m");
    assert_eq!(error("a{99999999999999999999}"), "数字过大");
    assert_eq!(error("a)b"), "位置 1 处有多余字符");
    assert_eq!(error("a**"), "位置 2 的 * 缺少左操作数");
    assert_eq!(error("("), "缺少 )");
}

#[test]
fn repetitions_are_counted() {
    assert!(is_match("^a{2}$", "aa"));
    assert!(!is_match("^a{2}$", "aaa"));
    assert!(is_match("^a{2,3}$", "aaa"));
    assert!(!is_match("^a{2,3}$", "aaaa"));
    assert!(is_match("^a{2,}$", "aaaaaa"));
    assert!(!is_match("^a{2,}$", "a"));
    assert!(is_match("^a{1,}$", &"a".repeat(256)));
    assert!(!is_match("^a{1,}$", &"a".repeat(257)));
    assert!(is_match("^(ab)*c+$", "ababcc"));
    assert!(is_match("^x*$", ""));
    // a part that can only match nothing fills no round
    assert!(!is_match("(a*)+b{0}$^x", "x"));
    assert!(!is_match("()+", "x"));
    assert!(is_match("()*", "x"));
}

#[test]
fn classes_and_escapes() {
    assert!(is_match("^[]a]+$", "]a"));
    assert!(is_match("^[^]]$", "x"));
    assert!(!is_match("^[^]]$", "]"));
    assert!(is_match("^[a-]+$", "a-"));
    assert!(is_match("^[\\d_x]+$", "7_x"));
    assert!(is_match("^[\\w-]+$", "a-B_9"));
    assert!(is_match("\\.", "a.b"));
    assert!(!is_match("\\.", "ab"));
    assert!(is_match("^\\S+\\s\\D\\W$", "ab x!"));
    assert!(is_match("\\\\", "a\\b"));
    assert!(is_match("^a]}$", "a]}"));
    assert!(is_match("漢.", "漢字"));
}

#[test]
fn quoted_texts_are_found_as_they_stand() {
    // every special character with a backslash before it
    let text = "a.b*c(d)[e]^f$g|h\\i{j}+?";
    let quoted = "a\\.b\\*c\\(d\\)\\[e]\\^f\\$g\\|h\\\\i\\{j}\\+\\?";
    assert!(is_match(quoted, &format!("x{text}y")));
    assert!(!is_match(quoted, "aXb*c(d)[e]^f$g|h\\i{j}+?"));
}

#[test]
fn anchors_and_branches() {
    assert!(is_match("a|b", "xb"));
    assert!(is_match("", "anything"));
    assert!(is_match("a|", "x"));
    assert!(is_match("^$", ""));
    assert!(!is_match("^$", "a"));
    assert!(is_match("(^a|b$)", "ab"));
    assert!(!is_match("(^a|b$)", "ba"));
    assert!(is_match("x$|y", "yx then"));
    assert!(is_match("a$b|c", "c"));
    assert!(!is_match("a$b", "ab"));
}

fn ends(pat: &str, text: &str, pos: usize) -> Vec<usize> {
    let cs: Vec<char> = text.chars().collect();
    SimpleRegex::match_at(&SimpleRegex::compile(pat).unwrap().root, &cs, pos)
}

#[test]
fn the_ends_of_a_match_come_in_order() {
    // most rounds first, and the start itself where no round is needed
    assert_eq!(ends(".*", "ab", 0), vec![2, 1, 0]);
    assert_eq!(ends("a*", "aab", 0), vec![2, 1, 0]);
    assert_eq!(ends("a{2,3}a", "aaa", 0), vec![3]);
    // branch after branch
    assert_eq!(ends("a|ab|a", "ab", 0), vec![1, 2, 1]);
    assert_eq!(ends("b|a", "ab", 0), vec![1]);
    // each end of a part is carried on
    assert_eq!(ends("(a|ab)(b|)", "ab", 0), vec![2, 1, 2]);
    // no end of a repetition twice
    assert_eq!(ends("(a|aa)*", "aaa", 0), vec![3, 2, 1, 0]);
    assert_eq!(ends("(a|b)?", "ab", 1), vec![2, 1]);
    assert!(ends("(a*)+", "b", 0).is_empty());
    assert_eq!(ends("", "ab", 7), vec![7]);
    let none: Vec<Rx> = Vec::new();
    assert_eq!(SimpleRegex::match_at(&Rx::Cat(none), &['a'], 1), vec![1]);
    assert!(SimpleRegex::match_at(&Rx::Alt(Vec::new()), &['a'], 0).is_empty());
}

#[test]
fn ends_of_lines_are_required() {
    let cs: Vec<char> = "aab".chars().collect();
    let r = SimpleRegex::compile("a*").unwrap();
    assert!(!SimpleRegex::needs_end(&r.root));
    let end = SimpleRegex::compile("ab$").unwrap();
    assert!(SimpleRegex::needs_end(&end.root));
    assert!(SimpleRegex::tail_ok(&end.root, &cs, 3));
    assert!(!SimpleRegex::tail_ok(&end.root, &cs, 2));
    assert!(SimpleRegex::tail_ok(&r.root, &cs, 2));
}

#[test]
fn anchored_texts() {
    for p in ["", "a", "ab", "漢 b]"] {
        for text in ["", "a", "ab", "abab", "xab", "漢 b]", "x漢 b]", "漢 b]x"] {
            assert_eq!(is_match(&format!("^{p}"), text), text.starts_with(p), "{p} {text}");
            assert_eq!(is_match(&format!("{p}$"), text), text.ends_with(p), "{p} {text}");
            assert_eq!(is_match(&format!("^{p}$"), text), text == p, "{p} {text}");
        }
    }
}

#[test]
fn escaped_texts() {
    for p in ["", "a.b", "[x]{y}", "\\d*+?|()^$", "plain"] {
        let mut esc = String::new();
        for c in p.chars() {
            if ".*+?|()[]^$\\{}".contains(c) {
                esc.push('\\');
            }
            esc.push(c);
        }
        for text in ["", "xa.by", "axb", "[x]{y}", "a\\d*+?|()^$", "plain text", "5"] {
            assert_eq!(is_match(&esc, text), text.contains(p), "{p} {text}");
        }
    }
}

#[test]
fn choices_of_patterns() {
    for (x, y) in [("a+b", "^c"), ("a|b", "[0-9]{2}|"), ("(x|y)z", "\\d$")] {
        for text in ["", "aab", "cab", "xc", "12", "a1", "yz", "b"] {
            let either = is_match(x, text) || is_match(y, text);
            assert_eq!(is_match(&format!("{x}|{y}"), text), either, "{x} {y} {text}");
        }
    }
    // a group that nothing opens and a second quantifier are refused
    for x in ["", "a", "a|b", "(a)*", "[)]"] {
        let n = x.chars().count();
        assert_eq!(error(&format!("{x})more")), format!("位置 {n} 处有多余字符"));
    }
    assert_eq!(error("ab*+c"), "位置 3 的 + 缺少左操作数");
    assert_eq!(error("a{2}?"), "位置 4 的 ? 缺少左操作数");
    assert_eq!(error("(a*)?{1}"), "位置 5 的 { 缺少左操作数");
}

#[test]
fn the_parser_moves_behind_what_it_reads() {
    let cs: Vec<char> = "a{12,}|b".chars().collect();
    let mut p = RxParser { cs: &cs, pos: 0 };
    assert_eq!(p.peek(), Some('a'));
    assert!(!p.eat('b'));
    assert!(p.eat('a'));
    assert_eq!(p.pos, 1);
    p.pos = 2;
    assert_eq!(p.parse_num().unwrap(), 12);
    assert_eq!(p.pos, 4);
    assert_eq!(p.parse_num_opt().unwrap(), None);
    p.pos = 0;
    match p.parse_cat().unwrap() {
        Rx::Rep(inner, lo, hi) => {
            assert!(matches!(*inner, Rx::Lit('a')));
            assert_eq!((lo, hi), (12, 267));
        }
        other => panic!("{other:?}"),
    }
    assert_eq!(p.pos, 6);
}

#[test]
fn a_clone_matches_the_same() {
    let r = SimpleRegex::compile("^(a[^x-z]|b{2,3})+.?$").unwrap();
    let c = r.clone();
    for text in ["", "ab", "ax", "bb", "bbbb", "abbb!", "xx"] {
        assert_eq!(c.is_match(text), r.is_match(text), "{text}");
    }
    assert!(c.is_match("abbbb"));
}

#[test]
fn quantifiers_in_a_row_are_refused() {
    for x in ["", "a", "a|", "a|b", "(a)", "[*+]", "\\*", "a*", "a{2}", "^a$", "(x|(y))"] {
        assert!(SimpleRegex::compile(x).is_ok(), "{x}");
        for first in ["*", "+", "?"] {
            for second in ["*", "+", "?", "{1}"] {
                for rest in ["", "b", "|c"] {
                    let pat = format!("{x}{first}{second}{rest}");
                    assert!(SimpleRegex::compile(&pat).is_err(), "{pat}");
                }
            }
        }
    }
}
