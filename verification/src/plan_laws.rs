//! What a request gets for its parameters.

use vstd::prelude::*;

use crate::fault::{failed, invalid, FaultModel};
use crate::filter::{filter_of, FilterModel, Wanted};
use crate::filter_laws::law_requested_lines;
use crate::listing::{files_of, logs_among};
use crate::paths::{joined, refusal, JoinedModel};
use crate::plans::{
    chunk_length, chunk_offset, connect_of, connection_name, connection_roots, dir_of, dir_refusal,
    download_of, file_name, file_of, first_lines, logs_from, needed, opened, report_of, route_of,
    session_of, stream_of, stream_owner, unopened, view_of, wanted, wanted_any_time, RootsPlan,
    Route,
};
use crate::request::{ConnectionModel, ParamsModel};
use crate::roots::roots_of;
use crate::text::{bytes_text, contains_text, decimal, texts, trimmed, upper};

verus! {

/// A request gets the page, the size of a page and the lines around a hit that it names,
/// where they are within the limits, and else the nearest that is. Without them it gets
/// the first page, of a hundred lines, and no lines around the hits. The last lines come
/// first unless it asks for the order `asc`.
pub proof fn law_view(p: ParamsModel, n: u64)
    ensures
        p.page == Some(n) && n >= 1 ==> view_of(p).page == n,
        p.page == Some(0u64) || p.page is None ==> view_of(p).page == 1,
        p.page_size == Some(n) && 1 <= n <= 500 ==> view_of(p).page_size == n,
        p.page_size == Some(n) && n > 500 ==> view_of(p).page_size == 500,
        p.page_size == Some(0u64) ==> view_of(p).page_size == 1,
        p.page_size is None ==> view_of(p).page_size == 100,
        p.context == Some(n) && n <= 20 ==> view_of(p).context == n,
        p.context == Some(n) && n > 20 ==> view_of(p).context == 20,
        p.context is None ==> view_of(p).context == 0,
        !view_of(p).newest_first <==> p.sort is Some && p.sort->0 == "asc"@,
{
}

/// A chunk begins where the request says and is as long as it says, up to five thousand
/// lines and at least one; without that it begins at the first line and has two thousand.
pub proof fn law_chunk(p: ParamsModel, n: u64)
    ensures
        p.offset == Some(n) ==> chunk_offset(p) == n,
        p.offset is None ==> chunk_offset(p) == 0,
        p.length == Some(n) && 1 <= n <= 5000 ==> chunk_length(p) == n,
        p.length == Some(n) && n > 5000 ==> chunk_length(p) == 5000,
        p.length == Some(0u64) ==> chunk_length(p) == 1,
        p.length is None ==> chunk_length(p) == 2000,
{
}

/// A stream begins with as many lines as the request says, up to a thousand; without that
/// with two hundred.
pub proof fn law_first_lines(p: ParamsModel, n: u64)
    ensures
        p.last_n == Some(n) && n <= 1000 ==> first_lines(p) == n,
        p.last_n == Some(n) && n > 1000 ==> first_lines(p) == 1000,
        p.last_n is None ==> first_lines(p) == 200,
{
}

/// A search asks for the keyword, the level, the range of time and the expression of its
/// request; a stream and a download ask for the same but for the range of time.
pub proof fn law_wanted(p: ParamsModel)
    ensures
        wanted(p).keyword == p.keyword,
        wanted(p).level == p.level,
        wanted(p).start == p.start_time,
        wanted(p).end == p.end_time,
        wanted(p).regex == p.regex,
        wanted_any_time(p) == wanted((ParamsModel { start_time: None, end_time: None, ..p })),
{
}

/// A chunk has the filter of a search for the same keyword, level and expression that has
/// no range of time.
pub proof fn law_download_filter(sessions: Map<Seq<char>, Seq<Seq<char>>>, p: ParamsModel)
    requires
        download_of(sessions, p) is Ok,
    ensures
        filter_of(wanted((ParamsModel { start_time: None, end_time: None, ..p }))) is Ok,
        forall|text: Seq<char>| #[trigger]
            download_of(sessions, p)->Ok_0.1.shows(text) <==> filter_of(
                wanted((ParamsModel { start_time: None, end_time: None, ..p })),
            )->Ok_0.shows(text),
{
}

/// Without an expression a chunk holds the lines in which the keyword of the request
/// stands, without the white space around it, and that name its level, and no others.
pub proof fn law_download_lines(
    sessions: Map<Seq<char>, Seq<Seq<char>>>,
    p: ParamsModel,
    text: Seq<char>,
)
    requires
        p.regex != Some(true),
        download_of(sessions, p) is Ok,
    ensures
        download_of(sessions, p)->Ok_0.1.shows(text) <==> {
            &&& p.keyword is Some ==> contains_text(text, trimmed(p.keyword->0))
            &&& p.level is Some && upper(p.level->0) != "ALL"@ ==> contains_text(
                upper(text),
                upper(p.level->0),
            )
        },
{
    law_requested_lines(
        (Wanted { keyword: p.keyword, level: p.level, start: None, end: None, regex: p.regex }),
        text,
    );
}

/// Without an expression a stream shows the lines in which the keyword of the request
/// stands, without the white space around it, and that name its level, whatever range of
/// time the request names.
pub proof fn law_stream_lines(
    j: JoinedModel,
    base: Result<Seq<u8>, Seq<char>>,
    path: Result<Seq<u8>, Seq<char>>,
    p: ParamsModel,
    text: Seq<char>,
)
    requires
        p.regex != Some(true),
        opened(j, base, path, wanted_any_time(p)) is Ok,
    ensures
        opened(j, base, path, wanted_any_time(p))->Ok_0.1.shows(text) <==> {
            &&& p.keyword is Some ==> contains_text(text, trimmed(p.keyword->0))
            &&& p.level is Some && upper(p.level->0) != "ALL"@ ==> contains_text(
                upper(text),
                upper(p.level->0),
            )
        },
{
    law_requested_lines(
        (Wanted { keyword: p.keyword, level: p.level, start: None, end: None, regex: p.regex }),
        text,
    );
}

/// A file is opened with the filter of its request, under the path that was looked up.
/// That the file cannot be had is said before anything is said of the filter.
pub proof fn law_opened(
    j: JoinedModel,
    base: Result<Seq<u8>, Seq<char>>,
    path: Result<Seq<u8>, Seq<char>>,
    w: Wanted,
)
    ensures
        opened(j, base, path, w) is Ok <==> refusal(j, base, path) is None && filter_of(w) is Ok,
        opened(j, base, path, w) is Ok ==> opened(j, base, path, w)->Ok_0.0 == bytes_text(
            path->Ok_0,
        ) && filter_of(w) == Ok::<_, FaultModel>(opened(j, base, path, w)->Ok_0.1),
        refusal(j, base, path) is Some ==> opened(j, base, path, w) == Err::<
            (Seq<char>, FilterModel),
            _,
        >(refusal(j, base, path)->0),
        refusal(j, base, path) is None && filter_of(w) is Err ==> opened(j, base, path, w) == Err::<
            (Seq<char>, FilterModel),
            _,
        >(filter_of(w)->Err_0),
{
}

/// A request without a connection is invalid, and one on a connection that is not open
/// fails; on an open connection it has the roots of the connection.
pub proof fn law_session(sessions: Map<Seq<char>, Seq<Seq<char>>>, id: Seq<char>)
    ensures
        session_of(sessions, None) is Err,
        session_of(sessions, None)->Err_0.code == -32602,
        session_of(sessions, None)->Err_0.message == "Missing connectionId"@,
        session_of(sessions, Some(id)) is Ok <==> sessions.contains_key(id),
        sessions.contains_key(id) ==> session_of(sessions, Some(id))->Ok_0 == sessions[id],
        !sessions.contains_key(id) ==> session_of(sessions, Some(id))->Err_0.code == -32000,
        !sessions.contains_key(id) ==> session_of(sessions, Some(id))->Err_0.message
            == "连接未建立：请先连接后再操作"@,
{
}

/// The file of a request lies below the roots of its connection. A connection that cannot
/// be had comes first among what is wrong with a request, then that it names no file, and
/// then what is wrong with the file.
pub proof fn law_file(sessions: Map<Seq<char>, Seq<Seq<char>>>, p: ParamsModel, id: Seq<char>)
    ensures
        session_of(sessions, p.connection_id) is Err ==> file_of(sessions, p) == Err::<
            JoinedModel,
            _,
        >(session_of(sessions, p.connection_id)->Err_0),
        p.connection_id == Some(id) && sessions.contains_key(id) && p.file is None ==> {
            &&& file_of(sessions, p) is Err
            &&& file_of(sessions, p)->Err_0.code == -32602
            &&& file_of(sessions, p)->Err_0.message == "Missing file"@
        },
        p.connection_id == Some(id) && sessions.contains_key(id) && p.file is Some ==> file_of(
            sessions,
            p,
        ) == joined(sessions[id], p.file->0),
{
}

/// A download has the file of a search with the same connection and file. What is wrong
/// with its connection or with the absence of a file comes first, then what is wrong with
/// its filter, and then what is wrong with the file.
pub proof fn law_download(sessions: Map<Seq<char>, Seq<Seq<char>>>, p: ParamsModel)
    ensures
        download_of(sessions, p) is Ok <==> file_of(sessions, p) is Ok && filter_of(
            wanted_any_time(p),
        ) is Ok,
        download_of(sessions, p) is Ok ==> file_of(sessions, p) == Ok::<_, FaultModel>(
            download_of(sessions, p)->Ok_0.0,
        ),
        session_of(sessions, p.connection_id) is Err || p.file is None ==> download_of(
            sessions,
            p,
        )->Err_0 == file_of(sessions, p)->Err_0,
        session_of(sessions, p.connection_id) is Ok && p.file is Some && filter_of(
            wanted_any_time(p),
        ) is Err ==> download_of(sessions, p)->Err_0 == filter_of(wanted_any_time(p))->Err_0,
        filter_of(wanted_any_time(p)) is Ok && file_of(sessions, p) is Err ==> download_of(
            sessions,
            p,
        )->Err_0 == file_of(sessions, p)->Err_0,
{
}

/// The directory of a request is its name without the white space around it; a request
/// that names none browses the roots.
pub proof fn law_dir(p: ParamsModel)
    ensures
        p.dir is Some ==> dir_of(p) == trimmed(p.dir->0),
        p.dir is None ==> dir_of(p).len() == 0,
{
    reveal_strlit("");
}

/// A parameter that is there is taken as it is; one that is missing makes a request
/// invalid.
pub proof fn law_needed(value: Seq<char>, message: Seq<char>)
    ensures
        needed(Some(value), message) == Ok::<_, FaultModel>(value),
        needed(None, message) is Err,
        needed(None, message)->Err_0.code == -32602,
        needed(None, message)->Err_0.message == message,
{
}

/// Invalid parameters and requests that fail have the codes of the protocol, and say what
/// is wrong.
pub proof fn law_codes(message: Seq<char>)
    ensures
        invalid(message).code == -32602,
        invalid(message).message == message,
        failed(message).code == -32000,
        failed(message).message == message,
{
}

/// That a file cannot be opened says which file, and why.
pub proof fn law_unopened(file: Seq<char>, e: Seq<char>)
    ensures
        unopened(file, e).code == -32000,
        unopened(file, e).message == "无法打开文件 "@ + file + "："@ + e,
{
}

/// The roots of a connection are those of its list, which is needed.
pub proof fn law_connection_roots(c: ConnectionModel)
    ensures
        c.log_dir is None ==> {
            &&& connection_roots(c) is Err
            &&& connection_roots(c)->Err_0.code == -32602
            &&& connection_roots(c)->Err_0.message == "Missing log_dir"@
        },
        c.log_dir is Some && roots_of(c.log_dir->0) is Ok ==> {
            &&& connection_roots(c) is Ok
            &&& connection_roots(c)->Ok_0.raw == c.log_dir->0
            &&& connection_roots(c)->Ok_0.dirs == roots_of(c.log_dir->0)->Ok_0
        },
        c.log_dir is Some && roots_of(c.log_dir->0) is Err ==> {
            &&& connection_roots(c) is Err
            &&& connection_roots(c)->Err_0 == roots_of(c.log_dir->0)->Err_0
        },
{
}

/// Each request has one method, and other methods have none.
pub proof fn law_routes(method: Seq<char>)
    ensures
        route_of(method) == Some(Route::Test) <==> method == "connection/test"@,
        route_of(method) == Some(Route::Connect) <==> method == "connection/connect"@,
        route_of(method) == Some(Route::Disconnect) <==> method == "connection/disconnect"@,
        route_of(method) == Some(Route::Browse) <==> method == "logs/browse"@,
        route_of(method) == Some(Route::Search) <==> method == "logs/search"@,
        route_of(method) == Some(Route::Tail) <==> method == "logs/tail"@,
        route_of(method) == Some(Route::Stop) <==> method == "logs/stop"@,
        route_of(method) == Some(Route::Download) <==> method == "logs/downloadChunk"@,
        route_of(method) == Some(Route::Ping) <==> method == "dbx-logviewer/ping"@,
{
    reveal_strlit("connection/test");
    reveal_strlit("connection/connect");
    reveal_strlit("connection/disconnect");
    reveal_strlit("logs/browse");
    reveal_strlit("logs/search");
    reveal_strlit("logs/tail");
    reveal_strlit("logs/stop");
    reveal_strlit("logs/downloadChunk");
    reveal_strlit("dbx-logviewer/ping");
    assert("connection/test"@[0] == 'c');
    assert("connection/test"@.len() == 15);
    assert("connection/connect"@.len() == 18);
    assert("connection/disconnect"@.len() == 21);
    assert("logs/browse"@.len() == 11);
    assert("logs/search"@.len() == 11);
    assert("logs/browse"@[5] == 'b');
    assert("logs/search"@[5] == 's');
    assert("logs/tail"@.len() == 9);
    assert("logs/stop"@.len() == 9);
    assert("logs/tail"@[5] == 't');
    assert("logs/stop"@[5] == 's');
    assert("logs/downloadChunk"@.len() == 18);
    assert("logs/downloadChunk"@[0] == 'l');
    assert("connection/connect"@[0] == 'c');
    assert("dbx-logviewer/ping"@.len() == 18);
    assert("dbx-logviewer/ping"@[0] == 'd');
}

/// The logs of several directories are those of the first and those of the others. The
/// first directory that cannot be read is the one that is named.
pub proof fn law_logs_from(
    dirs: Seq<Seq<char>>,
    reads: Seq<Result<Vec<String>, String>>,
    k: int,
)
    requires
        0 <= k < reads.len() == dirs.len(),
    ensures
        logs_from(dirs, reads, reads.len() as int) == Ok::<nat, FaultModel>(0),
        reads[k] is Err ==> {
            &&& logs_from(dirs, reads, k) is Err
            &&& logs_from(dirs, reads, k)->Err_0.code == -32000
            &&& logs_from(dirs, reads, k)->Err_0.message == "无法读取目录 "@ + dirs[k] + "："@
                + reads[k]->Err_0@
        },
        reads[k] is Ok && logs_from(dirs, reads, k + 1) is Err ==> logs_from(dirs, reads, k)
            == logs_from(dirs, reads, k + 1),
        reads[k] is Ok && logs_from(dirs, reads, k + 1) is Ok ==> {
            &&& logs_from(dirs, reads, k) is Ok
            &&& logs_from(dirs, reads, k)->Ok_0 == logs_among(files_of(reads[k])->Ok_0) + logs_from(
                dirs,
                reads,
                k + 1,
            )->Ok_0
        },
{
}

/// A directory is browsed where it may be and is one.
pub proof fn law_dir_refusal(
    j: JoinedModel,
    base: Result<Seq<u8>, Seq<char>>,
    path: Result<Seq<u8>, Seq<char>>,
    is_dir: bool,
)
    ensures
        dir_refusal(j, base, path, is_dir) is None <==> is_dir && refusal(j, base, path) is None,
        refusal(j, base, path) is Some ==> dir_refusal(j, base, path, is_dir) == refusal(
            j,
            base,
            path,
        ),
        refusal(j, base, path) is None && !is_dir ==> {
            &&& dir_refusal(j, base, path, is_dir)->0.code == -32602
            &&& dir_refusal(j, base, path, is_dir)->0.message == "不是目录"@
        },
{
}

/// A job has the file of its request as it is written. A stream belongs to the connection
/// of its request.
pub proof fn law_names(p: ParamsModel)
    ensures
        p.file is Some ==> file_name(p) == p.file->0,
        p.file is None ==> file_name(p).len() == 0,
        p.connection_id is Some ==> stream_owner(p) == p.connection_id->0,
        p.connection_id is None ==> stream_owner(p) == "local"@,
{
    reveal_strlit("");
}

/// A stream is stopped by its name, and a connection is opened and closed by its own; both
/// are needed.
pub proof fn law_names_needed(p: ParamsModel, c: ConnectionModel)
    ensures
        p.stream_id is Some ==> stream_of(p) == Ok::<_, FaultModel>(p.stream_id->0),
        p.stream_id is None ==> {
            &&& stream_of(p) is Err
            &&& stream_of(p)->Err_0.code == -32602
            &&& stream_of(p)->Err_0.message == "Missing streamId"@
        },
        c.id is Some ==> connection_name(c) == Ok::<_, FaultModel>(c.id->0),
        c.id is None ==> {
            &&& connection_name(c) is Err
            &&& connection_name(c)->Err_0.code == -32602
            &&& connection_name(c)->Err_0.message == "Missing connection id"@
        },
{
}

/// A connection is opened under its name with the roots of its list. A missing name comes
/// first among what is wrong with a request.
pub proof fn law_connect(c: ConnectionModel)
    ensures
        connect_of(c) is Ok <==> c.id is Some && connection_roots(c) is Ok,
        connect_of(c) is Ok ==> connect_of(c)->Ok_0.0 == c.id->0 && connect_of(c)->Ok_0.1
            == connection_roots(c)->Ok_0,
        c.id is None ==> connect_of(c)->Err_0 == connection_name(c)->Err_0,
        c.id is Some && connection_roots(c) is Err ==> connect_of(c)->Err_0 == connection_roots(
            c,
        )->Err_0,
{
}

/// A test of a connection answers with the number of its logs and its list of roots.
pub proof fn law_report(total: nat, raw: Seq<char>)
    ensures
        report_of(total, raw) == "目录可读，共 "@ + decimal(total) + " 个日志文件："@ + raw,
{
}

/// A plan holds the list of roots as it is written and the roots in it.
pub proof fn law_roots_plan(plan: RootsPlan)
    ensures
        plan@.raw == plan.raw@,
        plan@.dirs == texts(plan.dirs@),
{
}

} // verus!
