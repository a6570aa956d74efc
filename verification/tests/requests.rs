use dbx_logviewer::fault::{INVALID_PARAMS, SERVER_ERROR};
use dbx_logviewer::json::{get_flag, get_text, get_whole};
use dbx_logviewer::plans::{
    cannot_open, check_dirs, find_file, find_session, open_dir, plan_browse, plan_connect,
    plan_disconnect, plan_download, plan_search, plan_stop, plan_tail, plan_test, route,
    test_message, BrowsePlan, Route,
};
use dbx_logviewer::request::{str_field, ConnectionParams, Params};
use dbx_logviewer::session::Sessions;
use serde_json::Value;

fn json(text: &str) -> Value {
    serde_json::from_str(text).unwrap()
}

fn params(text: &str) -> Params {
    Params::read(&json(text))
}

fn connected() -> Sessions {
    let mut s = Sessions::new();
    s.connect("c", vec!["/app/data".to_string(), "/var/logs".to_string()]).unwrap();
    s
}

fn found(path: &str) -> Result<Vec<u8>, String> {
    Ok(path.as_bytes().to_vec())
}

#[test]
fn members_are_read_by_type() {
    let v = json(r#"{"a":"x","n":7,"neg":-1,"f":1.5,"big":18446744073709551615,"t":true,"z":null,"l":[1]}"#);
    assert_eq!(get_text(&v, "a"), Some("x".to_string()));
    assert_eq!(get_text(&v, "n"), None);
    assert_eq!(get_text(&v, "missing"), None);
    assert_eq!(get_whole(&v, "n"), Some(7));
    assert_eq!(get_whole(&v, "neg"), None);
    assert_eq!(get_whole(&v, "f"), None);
    assert_eq!(get_whole(&v, "big"), Some(u64::MAX));
    assert_eq!(get_whole(&v, "a"), None);
    assert_eq!(get_flag(&v, "t"), Some(true));
    assert_eq!(get_flag(&v, "n"), None);
    assert_eq!(get_text(&v, "z"), None);
    assert_eq!(get_text(&v, "l"), None);
    assert_eq!(get_text(&Value::Null, "a"), None);
    assert_eq!(get_whole(&json("[3]"), "0"), None);
}

#[test]
fn settings_stand_in_three_places() {
    let outer = json(r#"{"external_config":{"log_dir":" /a "},"config":{"log_dir":"/b"},"log_dir":"/c"}"#);
    assert_eq!(str_field(&outer, &["log_dir"]), Some("/a".to_string()));
    let inner = json(r#"{"external_config":{"log_dir":"  "},"config":{"log_dir":"/b"},"log_dir":"/c"}"#);
    assert_eq!(str_field(&inner, &["log_dir"]), Some("/b".to_string()));
    let own = json(r#"{"config":{"log_dir":3},"log_dir":"/c"}"#);
    assert_eq!(str_field(&own, &["log_dir"]), Some("/c".to_string()));
    assert_eq!(str_field(&own, &["other"]), None);
    assert_eq!(str_field(&own, &["other", "log_dir"]), Some("/c".to_string()));
    assert_eq!(str_field(&own, &[]), None);
}

#[test]
fn connect_ignores_legacy_ssh_mode() {
    let v = json(
        r#"{"connection":{"id":"legacy-ssh-conn","mode":"ssh","log_dir":"/tmp/dbx-logviewer-legacy-ssh"}}"#,
    );
    let plan = plan_connect(&ConnectionParams::read(&v)).unwrap();
    assert_eq!(plan.id, "legacy-ssh-conn");
    assert_eq!(plan.roots.dirs, vec!["/tmp/dbx-logviewer-legacy-ssh"]);
    assert_eq!(check_dirs(&plan.roots.dirs, &vec![Ok(vec!["a.log".to_string()])]).unwrap(), 1);
    let mut s = Sessions::new();
    assert!(s.connect(&plan.id, plan.roots.dirs).is_ok());
    assert!(s.session("legacy-ssh-conn").is_ok());
}

#[test]
fn connecting_needs_a_name_and_roots() {
    let f = plan_connect(&ConnectionParams::read(&json("{}"))).unwrap_err();
    assert_eq!((f.code, f.message.as_str()), (INVALID_PARAMS, "Missing connection id"));
    let f = plan_connect(&ConnectionParams::read(&json(r#"{"connection":{"id":"a"}}"#))).unwrap_err();
    assert_eq!((f.code, f.message.as_str()), (INVALID_PARAMS, "Missing log_dir"));
    let f = plan_test(&ConnectionParams::read(&json(r#"{"connection":{}}"#))).unwrap_err();
    assert_eq!((f.code, f.message.as_str()), (INVALID_PARAMS, "Missing log_dir"));
    let f = plan_test(&ConnectionParams::read(&json(r#"{"connection":{"log_dir":"x"}}"#))).unwrap_err();
    assert_eq!(f.message, "根目录必须是绝对路径：x");
    let plan = plan_test(&ConnectionParams::read(&json(r#"{"connection":{"log_dir":"/a, /b/"}}"#))).unwrap();
    assert_eq!(plan.raw, "/a, /b/");
    assert_eq!(plan.dirs, vec!["/a", "/b"]);
    let f = plan_disconnect(&ConnectionParams::read(&json(r#"{"connection":{"id":5}}"#))).unwrap_err();
    assert_eq!((f.code, f.message.as_str()), (INVALID_PARAMS, "Missing connection id"));
    let c = ConnectionParams { id: Some("a".to_string()), log_dir: None };
    assert_eq!(plan_disconnect(&c).unwrap(), "a");
}

#[test]
fn the_first_unreadable_directory_is_named() {
    let dirs = vec!["/a".to_string(), "/b".to_string(), "/c".to_string()];
    let ok = Ok(vec!["x.log".to_string(), "y.OUT".to_string(), "z.txt".to_string()]);
    let f = check_dirs(&dirs, &vec![ok.clone(), Err("denied".to_string()), Err("gone".to_string())])
        .unwrap_err();
    assert_eq!((f.code, f.message.as_str()), (SERVER_ERROR, "无法读取目录 /b：denied"));
    assert_eq!(check_dirs(&dirs, &vec![ok.clone(), ok.clone(), ok]).unwrap(), 6);
    assert_eq!(test_message(6, "/a,/b"), "目录可读，共 6 个日志文件：/a,/b");
}

#[test]
fn methods_are_routed() {
    assert_eq!(route("connection/test"), Some(Route::Test));
    assert_eq!(route("connection/connect"), Some(Route::Connect));
    assert_eq!(route("connection/disconnect"), Some(Route::Disconnect));
    assert_eq!(route("logs/browse"), Some(Route::Browse));
    assert_eq!(route("logs/search"), Some(Route::Search));
    assert_eq!(route("logs/tail"), Some(Route::Tail));
    assert_eq!(route("logs/stop"), Some(Route::Stop));
    assert_eq!(route("logs/downloadChunk"), Some(Route::Download));
    assert_eq!(route("dbx-logviewer/ping"), Some(Route::Ping));
    assert_eq!(route("logs/list"), None);
}

#[test]
fn requests_need_an_open_connection() {
    let s = connected();
    let f = find_session(&s, &params("{}")).unwrap_err();
    assert_eq!((f.code, f.message.as_str()), (INVALID_PARAMS, "Missing connectionId"));
    let f = find_session(&s, &params(r#"{"connectionId":"d"}"#)).unwrap_err();
    assert_eq!((f.code, f.message.as_str()), (SERVER_ERROR, "连接未建立：请先连接后再操作"));
    let session = find_session(&s, &params(r#"{"connectionId":"c"}"#)).unwrap();
    assert_eq!(session.log_dirs, vec!["/app/data", "/var/logs"]);
    let f = find_file(&s, &params(r#"{"connectionId":"c"}"#)).unwrap_err();
    assert_eq!((f.code, f.message.as_str()), (INVALID_PARAMS, "Missing file"));
    let j = find_file(&s, &params(r#"{"connectionId":"c","file":"logs/a.log"}"#)).unwrap();
    assert_eq!(j.path, "/var/logs/a.log");
}

#[test]
fn a_search_has_defaults_and_limits() {
    let s = connected();
    let job = plan_search(&s, params(r#"{"connectionId":"c","file":" logs/a.log"}"#))
        .unwrap()
        .open(found("/var/logs"), found("/var/logs/a.log"))
        .unwrap();
    assert_eq!(job.path, "/var/logs/a.log");
    assert_eq!(job.file, " logs/a.log");
    assert_eq!((job.view.page, job.view.page_size, job.view.context), (1, 100, 0));
    assert!(job.view.newest_first);
    assert_eq!((job.filter.keyword.as_str(), job.filter.level.as_str()), ("", "ALL"));
    assert!(job.filter.start.is_none() && job.filter.end.is_none() && job.filter.re.is_none());
    let job = plan_search(
        &s,
        params(
            r#"{"connectionId":"c","file":"logs/a.log","keyword":" boom ","level":"error",
            "startTime":"2026-08-30 11:00:00","endTime":"  ","page":0,"pageSize":9999,"sort":"asc",
            "regex":true,"context":50}"#,
        ),
    )
    .unwrap()
    .open(found("/var/logs"), found("/var/logs/a.log"))
    .unwrap();
    assert_eq!((job.view.page, job.view.page_size, job.view.context), (1, 500, 20));
    assert!(!job.view.newest_first);
    assert_eq!((job.filter.keyword.as_str(), job.filter.level.as_str()), ("boom", "ERROR"));
    assert_eq!((job.filter.start, job.filter.end), (Some(20260830110000), None));
    assert!(job.filter.re.is_some());
}

#[test]
fn a_search_checks_the_path_before_the_expression() {
    let s = connected();
    let bad = r#"{"connectionId":"c","file":"logs/a.log","keyword":"a(b","regex":true}"#;
    let plan = plan_search(&s, params(bad)).unwrap();
    let f = plan.open(found("/var/logs"), Err("gone".to_string())).unwrap_err();
    assert_eq!((f.code, f.message.as_str()), (SERVER_ERROR, "路径不存在 logs/a.log：gone"));
    let plan = plan_search(&s, params(bad)).unwrap();
    let f = plan.open(found("/var/logs"), found("/var/logs/a.log")).unwrap_err();
    assert_eq!((f.code, f.message.as_str()), (INVALID_PARAMS, "正则表达式无效：缺少 )"));
    // a download checks the expression first
    let both = r#"{"connectionId":"c","file":"../x","keyword":"a(b","regex":true}"#;
    assert_eq!(plan_download(&s, &params(both)).unwrap_err().message, "正则表达式无效：缺少 )");
    assert_eq!(plan_search(&s, params(both)).unwrap_err().message, "非法文件名");
    // without a keyword there is no expression
    let empty = r#"{"connectionId":"c","file":"logs/a.log","keyword":"  ","regex":true}"#;
    assert!(plan_download(&s, &params(empty)).unwrap().filter.re.is_none());
}

#[test]
fn a_stream_has_defaults_and_limits() {
    let s = connected();
    let open = |text: &str| {
        plan_tail(&s, params(text)).unwrap().open(found("/var/logs"), found("/var/logs/a.log")).unwrap()
    };
    let job = open(r#"{"connectionId":"c","file":"logs/a.log","startTime":"2026-08-30 11:00:00"}"#);
    assert_eq!((job.connection.as_str(), job.file.as_str(), job.last_n), ("c", "logs/a.log", 200));
    assert_eq!(job.path, "/var/logs/a.log");
    assert!(job.filter.start.is_none());
    assert_eq!(open(r#"{"connectionId":"c","file":"logs/a.log","lastN":5000}"#).last_n, 1000);
    assert_eq!(open(r#"{"connectionId":"c","file":"logs/a.log","lastN":0}"#).last_n, 0);
    let f = plan_stop(&params("{}")).unwrap_err();
    assert_eq!((f.code, f.message.as_str()), (INVALID_PARAMS, "Missing streamId"));
    assert_eq!(plan_stop(&params(r#"{"streamId":"c:f:1"}"#)).unwrap(), "c:f:1");
}

#[test]
fn a_download_has_defaults_and_limits() {
    let s = connected();
    let plan = plan_download(&s, &params(r#"{"connectionId":"c","file":"logs/a.log"}"#)).unwrap();
    assert_eq!((plan.offset, plan.length, plan.file.as_str()), (0, 2000, "logs/a.log"));
    let plan = plan_download(
        &s,
        &params(r#"{"connectionId":"c","file":"logs/a.log","offset":70,"length":0,"level":"warn"}"#),
    )
    .unwrap();
    assert_eq!((plan.offset, plan.length, plan.filter.level.as_str()), (70, 1, "WARN"));
    let long = params(r#"{"connectionId":"c","file":"logs/a.log","length":100000}"#);
    assert_eq!(plan_download(&s, &long).unwrap().length, 5000);
    let f = plan_download(&s, &params(r#"{"connectionId":"c"}"#)).unwrap_err();
    assert_eq!(f.message, "Missing file");
    let f = cannot_open("logs/a.log", "denied");
    assert_eq!((f.code, f.message.as_str()), (SERVER_ERROR, "无法打开文件 logs/a.log：denied"));
}

#[test]
fn multi_root_isolation() {
    let v = json(
        r#"{"connection":{"id":"multi-conn","log_dir":"/tmp/dbx-logviewer-multiroot/dataA,/tmp/dbx-logviewer-multiroot/dataB"}}"#,
    );
    let plan = plan_connect(&ConnectionParams::read(&v)).unwrap();
    let mut s = Sessions::new();
    assert!(s.connect(&plan.id, plan.roots.dirs).is_ok());
    match plan_browse(&s, &params(r#"{"connectionId":"multi-conn"}"#)).unwrap() {
        BrowsePlan::Roots(l) => assert_eq!(l.dirs, vec!["dataA", "dataB"]),
        BrowsePlan::Dir { .. } => panic!("the roots are listed"),
    }
    let j = find_file(&s, &params(r#"{"connectionId":"multi-conn","file":"dataB/b.log"}"#)).unwrap();
    assert_eq!(j.path, "/tmp/dbx-logviewer-multiroot/dataB/b.log");
    assert!(find_file(&s, &params(r#"{"connectionId":"multi-conn","file":"dataA/../dataB/b.log"}"#)).is_err());
    // roots of the same short name
    let v = json(
        r#"{"connection":{"id":"dup-conn","log_dir":"/tmp/dbx-logviewer-multiroot/x/logs,/tmp/dbx-logviewer-multiroot/y/logs"}}"#,
    );
    let plan = plan_connect(&ConnectionParams::read(&v)).unwrap();
    let f = s.connect(&plan.id, plan.roots.dirs).unwrap_err();
    assert_eq!((f.code, f.message.as_str()), (INVALID_PARAMS, "根目录重名：logs"));
    assert!(s.session("dup-conn").is_err());
}

#[test]
fn only_directories_are_browsed() {
    let s = connected();
    let dir = |text: &str| match plan_browse(&s, &params(text)).unwrap() {
        BrowsePlan::Dir { dir, joined } => (dir, joined),
        BrowsePlan::Roots(_) => panic!("a directory is listed"),
    };
    let (name, j) = dir(r#"{"connectionId":"c","dir":" logs/sub "}"#);
    assert_eq!(name, "logs/sub");
    let (base, path) = (found("/var/logs"), found("/var/logs/sub"));
    assert_eq!(open_dir(&j, base.clone(), path.clone(), true).unwrap(), "/var/logs/sub");
    let f = open_dir(&j, base, path, false).unwrap_err();
    assert_eq!((f.code, f.message.as_str()), (INVALID_PARAMS, "不是目录"));
    let f = open_dir(&j, found("/var/logs"), found("/etc"), true).unwrap_err();
    assert_eq!(f.message, "非法文件名");
    assert!(plan_browse(&s, &params(r#"{"connectionId":"c","dir":"../"}"#)).is_err());
    assert!(plan_browse(&s, &params(r#"{"connectionId":"c","dir":"/etc"}"#)).is_err());
    match plan_browse(&s, &params(r#"{"connectionId":"c","dir":"  "}"#)).unwrap() {
        BrowsePlan::Roots(l) => {
            assert_eq!(l.dir, "");
            assert_eq!(l.dirs, vec!["data", "logs"]);
            assert!(l.entries.is_empty());
        }
        BrowsePlan::Dir { .. } => panic!("the roots are listed"),
    }
}
