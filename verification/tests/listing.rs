use dbx_logviewer::fault::SERVER_ERROR;
use dbx_logviewer::listing::{
    cannot_read, classify, count_log_files, in_text_order, link_target, list_dir, list_roots, names_log,
    sort_by_name, sort_names, EntryKind, Facts, Item,
};
use dbx_logviewer::paths::{safe_join, Session};
use dbx_logviewer::roots::root_name;

fn item(name: &str, is_dir: bool, size: u64) -> Item {
    Item {
        name: name.to_string(),
        is_dir,
        is_file: !is_dir,
        is_broken_link: false,
        facts: Facts { size, modified_at: 7, target: None },
    }
}

#[test]
fn logs_are_known_by_their_extension() {
    for name in ["a.log", "nohup.out", "A.LOG", "x.y.Out", "a b.log"] {
        assert!(names_log(name), "{name}");
    }
    for name in ["", "log", ".log", "a.txt", "a.log.gz", "a.", "a.logs", "..", "a.1og"] {
        assert!(!names_log(name), "{name}");
    }
    assert!(names_log(".a.log"));
}

#[test]
fn extensions_agree_with_std() {
    for name in ["a.log", ".log", "log", "a.b.out", "..log", "a..log", "a.", ".x.log", "é.LOG"] {
        let ext = std::path::Path::new(name)
            .extension()
            .and_then(|e| e.to_str())
            .map(|e| ["log", "out"].contains(&e.to_ascii_lowercase().as_str()))
            .unwrap_or(false);
        assert_eq!(names_log(name), ext, "{name}");
    }
}

#[test]
fn logs_are_counted() {
    let names: Vec<String> = ["a.log", "b.txt", "c.out"].iter().map(|n| n.to_string()).collect();
    assert_eq!(count_log_files("/d", &Ok(names)).unwrap(), 2);
    let f = count_log_files("/d", &Err("denied".to_string())).unwrap_err();
    assert_eq!((f.code, f.message.as_str()), (SERVER_ERROR, "无法读取目录 /d：denied"));
    assert_eq!(cannot_read("logs/sub", "gone").message, "无法读取目录 logs/sub：gone");
}

#[test]
fn entries_are_classified() {
    assert_eq!(classify("sub", true, false, false), EntryKind::Dir);
    assert_eq!(classify("a.log", false, true, false), EntryKind::Log);
    assert_eq!(classify("a.txt", false, true, false), EntryKind::Skipped);
    assert_eq!(classify("a.log", false, false, false), EntryKind::Skipped);
    assert_eq!(classify("a.log", false, false, true), EntryKind::Log);
    assert_eq!(classify("a.txt", false, false, true), EntryKind::Skipped);
    assert_eq!(classify(".a.log", false, false, true), EntryKind::Skipped);
    assert_eq!(classify(".git", true, false, false), EntryKind::Skipped);
    assert_eq!(classify(".a.log", false, true, false), EntryKind::Skipped);
    assert_eq!(classify("dir.log", true, false, false), EntryKind::Dir);
}

#[test]
fn a_broken_link_is_listed_without_size_and_time() {
    let broken = Item {
        name: "x.log".to_string(),
        is_dir: false,
        is_file: false,
        is_broken_link: true,
        facts: Facts { size: 9, modified_at: 7, target: Some("/gone/x.log".to_string()) },
    };
    let l = list_dir("logs", &vec![item("z.log", false, 3), broken, item("sub", true, 0)]);
    assert_eq!(l.dirs, vec!["sub"]);
    assert_eq!(l.entries.len(), 2);
    assert_eq!(l.entries[0].0, "logs/x.log");
    assert_eq!((l.entries[0].1.size, l.entries[0].1.modified_at), (0, 0));
    assert_eq!(l.entries[0].1.target, Some("/gone/x.log".to_string()));
    assert_eq!(l.entries[1].0, "logs/z.log");
    assert_eq!((l.entries[1].1.size, l.entries[1].1.modified_at), (3, 7));
}

#[test]
fn names_are_ordered_as_std_does() {
    let names = ["b", "a", "", "ab", "é", "漢", "Z", "a\u{10ffff}", "a\u{ffff}", "ab"];
    for a in names {
        for b in names {
            assert_eq!(in_text_order(a, b), a <= b, "{a} {b}");
        }
    }
    let mut sorted: Vec<String> = names.iter().map(|n| n.to_string()).collect();
    let ours = sort_names(sorted.clone());
    sorted.sort();
    assert_eq!(ours, sorted);
}

#[test]
fn equal_names_keep_their_order() {
    let v = vec![("b", 1), ("a", 2), ("b", 3), ("a", 4), ("c", 5), ("a", 6)];
    let mut std_sorted: Vec<(String, u32)> = v.iter().map(|p| (p.0.to_string(), p.1)).collect();
    let ours = sort_by_name(std_sorted.clone());
    std_sorted.sort_by(|x, y| x.0.cmp(&y.0));
    assert_eq!(ours, std_sorted);
}

#[test]
fn browse_lists_one_level() {
    let root = root_name("/tmp/dbx-logviewer-browse/logs");
    let s = Session { log_dirs: vec!["/tmp/dbx-logviewer-browse/logs".to_string()] };
    assert!(list_roots(&s).dirs.contains(&root));
    let l = list_dir(&root, &vec![item("top.log", false, 2), item("sub", true, 0), item("note.txt", false, 2)]);
    assert_eq!(l.dir, root);
    assert!(l.dirs.contains(&"sub".to_string()));
    let names: Vec<String> = l.entries.iter().map(|e| e.0.clone()).collect();
    assert!(names.contains(&format!("{root}/top.log")));
    assert!(!names.iter().any(|n| n.contains("note.txt") || n.contains("a.log")));
    let l = list_dir(&format!("{root}/sub"), &vec![item("a.log", false, 2)]);
    assert_eq!(l.entries.len(), 1);
    assert_eq!(l.entries[0].0, format!("{root}/sub/a.log"));
    assert_eq!(l.entries[0].1.size, 2);
    assert_eq!(l.entries[0].1.modified_at, 7);
    assert!(safe_join(&s, "../").is_err());
    assert!(safe_join(&s, "/etc").is_err());
}

#[test]
fn listings_are_in_order() {
    let mut link = item("b.log", false, 0);
    link.facts.target = Some("/elsewhere/b.log".to_string());
    let items = vec![
        item("z", true, 0),
        item("c.out", false, 3),
        item("a", true, 0),
        link,
        item(".hidden.log", false, 1),
        item("a.log", false, 5),
    ];
    let l = list_dir("logs", &items);
    assert_eq!(l.dirs, vec!["a", "z"]);
    let names: Vec<&str> = l.entries.iter().map(|e| e.0.as_str()).collect();
    assert_eq!(names, vec!["logs/a.log", "logs/b.log", "logs/c.out"]);
    assert_eq!(l.entries[1].1.target, Some("/elsewhere/b.log".to_string()));
    assert_eq!(l.entries[2].1.size, 3);
    let s = Session { log_dirs: vec!["/v/zeta".to_string(), "/v/alpha".to_string()] };
    assert_eq!(list_roots(&s).dirs, vec!["alpha", "zeta"]);
}

#[test]
fn a_listed_log_is_found_under_its_name() {
    let s = Session { log_dirs: vec!["/v/logs".to_string()] };
    for dir in ["logs", "logs/sub", "logs/sub/"] {
        assert!(safe_join(&s, dir).is_ok());
        let l = list_dir(dir, &vec![item("x.log", false, 1)]);
        let j = safe_join(&s, &l.entries[0].0).unwrap();
        assert_eq!(j.base, "/v/logs");
        assert!(j.path.ends_with("/x.log"));
    }
    // a name with two dots in a row is listed but refused
    let l = list_dir("logs", &vec![item("x..log", false, 1)]);
    assert_eq!(l.entries.len(), 1);
    assert!(safe_join(&s, &l.entries[0].0).is_err());
}

#[test]
fn link_targets_are_absolute() {
    assert_eq!(link_target("/v/logs", "/elsewhere/b.log"), "/elsewhere/b.log");
    assert_eq!(link_target("/v/logs", "b.log"), "/v/logs/b.log");
    assert_eq!(link_target("/", "b.log"), "/b.log");
}
