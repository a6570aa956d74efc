use dbx_logviewer::fault::{INVALID_PARAMS, SERVER_ERROR};
use dbx_logviewer::paths::{is_within, message_about, safe_join, settle_join, Session};
use dbx_logviewer::roots::{check_names, parse_roots, root_name};

fn session(dirs: &[&str]) -> Session {
    Session { log_dirs: dirs.iter().map(|d| d.to_string()).collect() }
}

fn found(path: &str) -> Result<Vec<u8>, String> {
    Ok(path.as_bytes().to_vec())
}

#[test]
fn safe_join_blocks_traversal() {
    let s = session(&["/var/log/aiban"]);
    assert!(safe_join(&s, "../etc/passwd").is_err()); // upward
    assert!(safe_join(&s, "/etc/passwd").is_err()); // absolute
    assert!(safe_join(&s, "sub\\dir.log").is_err()); // backslash
    assert!(safe_join(&s, "").is_err()); // empty
    assert!(safe_join(&s, "other/a.log").is_err()); // no such root
}

#[test]
fn refused_paths_are_answered_as_invalid() {
    let s = session(&["/var/log/aiban"]);
    for rel in ["../etc/passwd", "/etc/passwd", "sub\\dir.log", "", "  ", "other/a.log", "aiban/a..log"] {
        let f = safe_join(&s, rel).unwrap_err();
        assert_eq!((f.code, f.message.as_str()), (INVALID_PARAMS, "非法文件名"), "{rel}");
    }
    assert_eq!(INVALID_PARAMS, -32602);
    assert_eq!(SERVER_ERROR, -32000);
}

#[test]
fn safe_join_allows_subdir_inside_base() {
    let b = "/tmp/dbx-logviewer-safejoin";
    let root = root_name(b);
    assert_eq!(root, "dbx-logviewer-safejoin");
    let s = session(&[b]);
    let file = safe_join(&s, &format!("{root}/sub/a.log")).unwrap();
    assert_eq!(file.path, "/tmp/dbx-logviewer-safejoin/sub/a.log");
    assert_eq!(file.base, b);
    assert_eq!(
        settle_join(&file, found(b), found("/tmp/dbx-logviewer-safejoin/sub/a.log")).unwrap(),
        "/tmp/dbx-logviewer-safejoin/sub/a.log"
    );
    let dir = safe_join(&s, &format!("{root}/sub")).unwrap();
    assert!(settle_join(&dir, found(b), found("/tmp/dbx-logviewer-safejoin/sub")).is_ok());
    assert!(safe_join(&s, "sub/../../evil").is_err());
    // a file that is not there
    let gone = safe_join(&s, &format!("{root}/no-such-file.log")).unwrap();
    let f = settle_join(&gone, found(b), Err("not found".to_string())).unwrap_err();
    assert_eq!(f.code, SERVER_ERROR);
    assert_eq!(f.message, "路径不存在 dbx-logviewer-safejoin/no-such-file.log：not found");
}

#[test]
fn the_root_itself_and_extra_slashes() {
    let s = session(&["/app/data"]);
    assert_eq!(safe_join(&s, "data").unwrap().path, "/app/data/");
    assert_eq!(safe_join(&s, " data//x.log ").unwrap().path, "/app/data/x.log");
    assert_eq!(safe_join(&s, " data//x.log ").unwrap().file, "data//x.log");
    assert_eq!(safe_join(&s, "data/a//b.log").unwrap().path, "/app/data/a//b.log");
}

#[test]
fn the_first_root_of_a_name_is_taken() {
    let s = session(&["/x/logs", "/y/logs", "/z/other"]);
    assert_eq!(safe_join(&s, "logs/a").unwrap().path, "/x/logs/a");
    assert_eq!(safe_join(&s, "other/a").unwrap().path, "/z/other/a");
}

#[test]
fn a_link_out_of_the_root_is_refused() {
    let s = session(&["/app/data"]);
    let j = safe_join(&s, "data/link.log").unwrap();
    let f = settle_join(&j, found("/app/data"), found("/etc/passwd")).unwrap_err();
    assert_eq!((f.code, f.message.as_str()), (INVALID_PARAMS, "非法文件名"));
    // a directory whose name only begins like the root
    assert!(settle_join(&j, found("/app/data"), found("/app/database/x")).is_err());
    // an unreadable root comes before a missing file
    let f = settle_join(&j, Err("denied".to_string()), Err("gone".to_string())).unwrap_err();
    assert_eq!((f.code, f.message.as_str()), (SERVER_ERROR, "无法读取目录 /app/data：denied"));
}

#[test]
fn paths_within_a_directory() {
    assert!(is_within(b"/a/b", b"/a/b"));
    assert!(is_within(b"/a/b", b"/a/b/c"));
    assert!(!is_within(b"/a/b", b"/a/bc"));
    assert!(!is_within(b"/a/b", b"/a"));
    assert!(is_within(b"/", b"/a"));
}

#[test]
fn a_path_that_is_not_text_is_read_with_replacements() {
    let s = session(&["/d"]);
    let j = safe_join(&s, "d/x").unwrap();
    let settled = settle_join(&j, found("/d"), Ok(b"/d/\xff.log".to_vec())).unwrap();
    assert_eq!(settled, "/d/\u{fffd}.log");
}

#[test]
fn roots_are_split_and_cleaned() {
    assert_eq!(parse_roots("/app/data,/logs").unwrap(), vec!["/app/data", "/logs"]);
    assert_eq!(parse_roots(" /app/data// , ,/logs/ ").unwrap(), vec!["/app/data", "/logs"]);
    let f = parse_roots(" , ,/").unwrap_err();
    assert_eq!((f.code, f.message.as_str()), (INVALID_PARAMS, "Missing log_dir"));
    let f = parse_roots("/ok,relative/dir,also").unwrap_err();
    assert_eq!(
        (f.code, f.message.as_str()),
        (INVALID_PARAMS, "根目录必须是绝对路径：relative/dir")
    );
}

#[test]
fn short_names_of_roots() {
    assert_eq!(root_name("/app/data"), "data");
    assert_eq!(root_name("data"), "data");
    assert_eq!(root_name("/app/"), "");
    let dirs = |v: &[&str]| v.iter().map(|d| d.to_string()).collect::<Vec<String>>();
    assert!(check_names(&dirs(&["/a/x", "/a/y"])).is_ok());
    let f = check_names(&dirs(&["/a/x", "/a/y", "/b/y", "/b/x"])).unwrap_err();
    assert_eq!((f.code, f.message.as_str()), (INVALID_PARAMS, "根目录重名：y"));
}

#[test]
fn messages_name_their_subject() {
    assert_eq!(message_about("无法打开文件 ", "a.log", "why"), "无法打开文件 a.log：why");
}
