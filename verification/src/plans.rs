//! What a request asks for, and in which order it is checked: the session, the
//! parameters and the path come before anything is read.

use vstd::prelude::*;

use crate::fault::{failed, invalid, Fault, FaultModel};
use crate::filter::{filter_of, Filter, FilterModel, Wanted};
use crate::json::string_view;
use crate::listing::{
    count_log_files, files_of, list_roots, lists_roots, logs_among, unreadable, Listing,
};
use crate::paths::{
    joined, lookup_of, message_about, refusal, safe_join, settle_join, Joined, JoinedModel, Session,
};
use crate::request::{ConnectionModel, ConnectionParams, Params, ParamsModel};
use crate::roots::{parse_roots, roots_of};
use crate::search::PageView;
use crate::session::Sessions;
use crate::text::{decimal, decimal_text, same_text, bytes_text, texts, trim, trimmed};

verus! {

/// What a request asks for.
#[derive(Debug, PartialEq, Eq, Structural)]
pub enum Route {
    Test,
    Connect,
    Disconnect,
    Browse,
    Search,
    Tail,
    Stop,
    Download,
    Ping,
}

/// What the name of a method stands for.
pub open spec fn route_of(method: Seq<char>) -> Option<Route> {
    if method == "connection/test"@ {
        Some(Route::Test)
    } else if method == "connection/connect"@ {
        Some(Route::Connect)
    } else if method == "connection/disconnect"@ {
        Some(Route::Disconnect)
    } else if method == "logs/browse"@ {
        Some(Route::Browse)
    } else if method == "logs/search"@ {
        Some(Route::Search)
    } else if method == "logs/tail"@ {
        Some(Route::Tail)
    } else if method == "logs/stop"@ {
        Some(Route::Stop)
    } else if method == "logs/downloadChunk"@ {
        Some(Route::Download)
    } else if method == "dbx-logviewer/ping"@ {
        Some(Route::Ping)
    } else {
        None
    }
}

/// What the name of a method stands for, if anything.
pub fn route(method: &str) -> (r: Option<Route>)
    ensures
        r == route_of(method@),
{
    if same_text(method, "connection/test") {
        Some(Route::Test)
    } else if same_text(method, "connection/connect") {
        Some(Route::Connect)
    } else if same_text(method, "connection/disconnect") {
        Some(Route::Disconnect)
    } else if same_text(method, "logs/browse") {
        Some(Route::Browse)
    } else if same_text(method, "logs/search") {
        Some(Route::Search)
    } else if same_text(method, "logs/tail") {
        Some(Route::Tail)
    } else if same_text(method, "logs/stop") {
        Some(Route::Stop)
    } else if same_text(method, "logs/downloadChunk") {
        Some(Route::Download)
    } else if same_text(method, "dbx-logviewer/ping") {
        Some(Route::Ping)
    } else {
        None
    }
}

/// A parameter that a request cannot do without.
pub open spec fn needed(value: Option<Seq<char>>, message: Seq<char>) -> Result<
    Seq<char>,
    FaultModel,
> {
    match value {
        Some(s) => Ok(s),
        None => Err(invalid(message)),
    }
}

fn need(value: &Option<String>, message: &str) -> (r: Result<String, Fault>)
    ensures
        match (r, needed(string_view(*value), message@)) {
            (Ok(s), Ok(m)) => s@ == m,
            (Err(f), Err(m)) => f@ == m,
            _ => false,
        },
{
    match value {
        Some(s) => Ok(s.clone()),
        None => Err(Fault::invalid(message)),
    }
}

/// The roots of the connection that a request names, or why there are none.
pub open spec fn session_of(
    sessions: Map<Seq<char>, Seq<Seq<char>>>,
    connection: Option<Seq<char>>,
) -> Result<Seq<Seq<char>>, FaultModel> {
    match connection {
        None => Err(invalid("Missing connectionId"@)),
        Some(id) => if sessions.contains_key(id) {
            Ok(sessions[id])
        } else {
            Err(failed("连接未建立：请先连接后再操作"@))
        },
    }
}

/// The session that a request names.
pub fn find_session(sessions: &Sessions, p: &Params) -> (r: Result<Session, Fault>)
    requires
        sessions.wf(),
    ensures
        match (r, session_of(sessions@, p@.connection_id)) {
            (Ok(s), Ok(m)) => s@ == m,
            (Err(f), Err(m)) => f@ == m,
            _ => false,
        },
{
    match &p.connection_id {
        Some(id) => sessions.session(id.as_str()),
        None => Err(Fault::invalid("Missing connectionId")),
    }
}

/// A request finds the roots with which its connection was opened, none once it is
/// closed, and neither touches the other connections.
pub proof fn law_connections(
    sessions: Map<Seq<char>, Seq<Seq<char>>>,
    id: Seq<char>,
    dirs: Seq<Seq<char>>,
    other: Option<Seq<char>>,
)
    requires
        other != Some(id),
    ensures
        session_of(sessions.insert(id, dirs), Some(id)) == Ok::<_, FaultModel>(dirs),
        session_of(sessions.remove(id), Some(id)) is Err,
        session_of(sessions.insert(id, dirs), other) == session_of(sessions, other),
        session_of(sessions.remove(id), other) == session_of(sessions, other),
{
}

/// The file that a request asks for, before it is looked up, or why it is refused.
pub open spec fn file_of(
    sessions: Map<Seq<char>, Seq<Seq<char>>>,
    p: ParamsModel,
) -> Result<JoinedModel, FaultModel> {
    match session_of(sessions, p.connection_id) {
        Err(f) => Err(f),
        Ok(dirs) => match needed(p.file, "Missing file"@) {
            Err(f) => Err(f),
            Ok(file) => joined(dirs, file),
        },
    }
}

/// The file that a request asks for, before it is looked up.
pub fn find_file(sessions: &Sessions, p: &Params) -> (r: Result<Joined, Fault>)
    requires
        sessions.wf(),
    ensures
        match (r, file_of(sessions@, p@)) {
            (Ok(j), Ok(m)) => j@ == m,
            (Err(f), Err(m)) => f@ == m,
            _ => false,
        },
{
    let session = match find_session(sessions, p) {
        Ok(session) => session,
        Err(f) => {
            return Err(f);
        },
    };
    match need(&p.file, "Missing file") {
        Ok(file) => safe_join(&session, file.as_str()),
        Err(f) => Err(f),
    }
}

/// What a request asks of the lines, within a range of time.
pub open spec fn wanted(p: ParamsModel) -> Wanted {
    Wanted {
        keyword: p.keyword,
        level: p.level,
        start: p.start_time,
        end: p.end_time,
        regex: p.regex,
    }
}

/// What a request asks of the lines, whatever their time.
pub open spec fn wanted_any_time(p: ParamsModel) -> Wanted {
    Wanted { keyword: p.keyword, level: p.level, start: None, end: None, regex: p.regex }
}

/// `n`, or the nearest number from `lo` to `hi`.
pub open spec fn clamped(n: u64, lo: u64, hi: u64) -> u64 {
    if n < lo {
        lo
    } else if n > hi {
        hi
    } else {
        n
    }
}

/// A number, or `fallback` where there is none.
pub open spec fn number_or(n: Option<u64>, fallback: u64) -> u64 {
    match n {
        Some(n) => n,
        None => fallback,
    }
}

fn clamp(n: Option<u64>, fallback: u64, lo: u64, hi: u64) -> (out: u64)
    ensures
        out == clamped(number_or(n, fallback), lo, hi),
{
    let n: u64 = match n {
        Some(n) => n,
        None => fallback,
    };
    if n < lo {
        lo
    } else if n > hi {
        hi
    } else {
        n
    }
}

/// The most lines on a page.
pub const MAX_PAGE_SIZE: u64 = 500;

/// The most lines around a hit.
pub const MAX_CONTEXT: u64 = 20;

/// The most lines at the start of a stream.
pub const MAX_LAST_LINES: u64 = 1000;

/// The most lines of a chunk.
pub const MAX_CHUNK: u64 = 5000;

/// Which page a request asks for: the first one of a hundred lines where it does
/// not say, the last lines first unless it asks for the first, and no lines around
/// the hits.
pub open spec fn view_of(p: ParamsModel) -> PageView {
    PageView {
        page: clamped(number_or(p.page, 1), 1, u64::MAX),
        page_size: clamped(number_or(p.page_size, 100), 1, MAX_PAGE_SIZE),
        newest_first: p.sort != Some("asc"@),
        context: clamped(number_or(p.context, 0), 0, MAX_CONTEXT),
    }
}

/// How many lines a stream begins with.
pub open spec fn first_lines(p: ParamsModel) -> u64 {
    clamped(number_or(p.last_n, 200), 0, MAX_LAST_LINES)
}

/// Where the chunk of a request begins.
pub open spec fn chunk_offset(p: ParamsModel) -> u64 {
    number_or(p.offset, 0)
}

/// How many lines the chunk of a request has at most.
pub open spec fn chunk_length(p: ParamsModel) -> u64 {
    clamped(number_or(p.length, 2000), 1, MAX_CHUNK)
}

/// Whatever a request asks for, a page has at most five hundred lines, a hundred
/// where it does not say, and at most twenty lines around a hit.
pub proof fn law_view_limits(p: ParamsModel)
    ensures
        view_of(p).wf(),
        1 <= view_of(p).page_size <= 500,
        p.page_size is None ==> view_of(p).page_size == 100,
        view_of(p).context <= 20,
{
}

fn read_view(p: &Params) -> (view: PageView)
    ensures
        view == view_of(p@),
        view.wf(),
{
    let newest_first = match &p.sort {
        Some(sort) => !same_text(sort.as_str(), "asc"),
        None => true,
    };
    PageView {
        page: clamp(p.page, 1, 1, u64::MAX),
        page_size: clamp(p.page_size, 100, 1, MAX_PAGE_SIZE),
        newest_first,
        context: clamp(p.context, 0, 0, MAX_CONTEXT),
    }
}

/// A search whose file is yet to be looked up.
#[derive(Debug)]
pub struct SearchPlan {
    pub joined: Joined,
    pub params: Params,
}

/// A search that can begin.
#[derive(Debug)]
pub struct SearchJob {
    pub file: String,
    pub path: String,
    pub filter: Filter,
    pub view: PageView,
}

/// Plans a search.
pub fn plan_search(sessions: &Sessions, p: Params) -> (r: Result<SearchPlan, Fault>)
    requires
        sessions.wf(),
    ensures
        match (r, file_of(sessions@, p@)) {
            (Ok(plan), Ok(m)) => plan.joined@ == m && plan.params@ == p@,
            (Err(f), Err(m)) => f@ == m,
            _ => false,
        },
{
    match find_file(sessions, &p) {
        Ok(joined) => Ok(SearchPlan { joined, params: p }),
        Err(f) => Err(f),
    }
}

/// The conditions for a file: it is found within its root, and then the filter is
/// valid. The lookups are those of the root and of the file.
pub open spec fn opened(
    joined: JoinedModel,
    base: Result<Seq<u8>, Seq<char>>,
    path: Result<Seq<u8>, Seq<char>>,
    w: Wanted,
) -> Result<(Seq<char>, FilterModel), FaultModel> {
    match refusal(joined, base, path) {
        Some(f) => Err(f),
        None => match filter_of(w) {
            Err(f) => Err(f),
            Ok(filter) => Ok((bytes_text(path->Ok_0), filter)),
        },
    }
}

/// The file that a request names, as it is written.
pub open spec fn file_name(p: ParamsModel) -> Seq<char> {
    match p.file {
        Some(file) => file,
        None => ""@,
    }
}

/// The connection that a stream belongs to.
pub open spec fn stream_owner(p: ParamsModel) -> Seq<char> {
    match p.connection_id {
        Some(id) => id,
        None => "local"@,
    }
}

/// The file that a request names, as it is written.
fn file_text(p: &Params) -> (file: String)
    ensures
        file@ == match p@.file {
            Some(file) => file,
            None => ""@,
        },
{
    match &p.file {
        Some(file) => file.clone(),
        None => "".to_owned(),
    }
}

impl SearchPlan {
    /// Begins a search once its root and its file have been looked up.
    pub fn open(self, base: Result<Vec<u8>, String>, path: Result<Vec<u8>, String>) -> (r: Result<
        SearchJob,
        Fault,
    >)
        ensures
            match (
                r,
                opened(self.joined@, lookup_of(base), lookup_of(path), wanted(self.params@)),
            ) {
                (Ok(job), Ok((found, filter))) => {
                    &&& job.path@ == found
                    &&& job.filter@ == filter
                    &&& job.view == view_of(self.params@)
                    &&& job.view.wf()
                    &&& job.file@ == file_name(self.params@)
                    &&& job.file@ == match self.params@.file {
                        Some(file) => file,
                        None => ""@,
                    }
                },
                (Err(f), Err(m)) => f@ == m,
                _ => false,
            },
    {
        let path = match settle_join(&self.joined, base, path) {
            Ok(path) => path,
            Err(f) => {
                return Err(f);
            },
        };
        let p = &self.params;
        match Filter::build(&p.keyword, &p.level, &p.start_time, &p.end_time, p.regex) {
            Ok(filter) => Ok(SearchJob { file: file_text(p), path, filter, view: read_view(p) }),
            Err(f) => Err(f),
        }
    }
}

/// Why a file cannot be read.
pub open spec fn unopened(file: Seq<char>, e: Seq<char>) -> FaultModel {
    failed("无法打开文件 "@ + file + "："@ + e)
}

/// The answer where a file cannot be opened.
pub fn cannot_open(file: &str, e: &str) -> (f: Fault)
    ensures
        f@ == unopened(file@, e@),
{
    Fault::failed(message_about("无法打开文件 ", file, e).as_str())
}

/// A stream whose file is yet to be looked up.
#[derive(Debug)]
pub struct TailPlan {
    pub joined: Joined,
    pub params: Params,
}

/// A stream that can begin.
#[derive(Debug)]
pub struct TailJob {
    pub connection: String,
    pub file: String,
    pub path: String,
    pub filter: Filter,
    pub last_n: u64,
}

/// Plans a stream.
pub fn plan_tail(sessions: &Sessions, p: Params) -> (r: Result<TailPlan, Fault>)
    requires
        sessions.wf(),
    ensures
        match (r, file_of(sessions@, p@)) {
            (Ok(plan), Ok(m)) => plan.joined@ == m && plan.params@ == p@,
            (Err(f), Err(m)) => f@ == m,
            _ => false,
        },
{
    match find_file(sessions, &p) {
        Ok(joined) => Ok(TailPlan { joined, params: p }),
        Err(f) => Err(f),
    }
}

impl TailPlan {
    /// Begins a stream once its root and its file have been looked up.
    pub fn open(self, base: Result<Vec<u8>, String>, path: Result<Vec<u8>, String>) -> (r: Result<
        TailJob,
        Fault,
    >)
        ensures
            match (
                r,
                opened(
                    self.joined@,
                    lookup_of(base),
                    lookup_of(path),
                    wanted_any_time(self.params@),
                ),
            ) {
                (Ok(job), Ok((found, filter))) => {
                    &&& job.path@ == found
                    &&& job.filter@ == filter
                    &&& job.last_n == clamped(
                        number_or(self.params@.last_n, 200),
                        0,
                        MAX_LAST_LINES,
                    )
                    &&& job.last_n == first_lines(self.params@)
                    &&& job.connection@ == stream_owner(self.params@)
                    &&& job.file@ == file_name(self.params@)
                    &&& job.file@ == match self.params@.file {
                        Some(file) => file,
                        None => ""@,
                    }
                    &&& job.connection@ == match self.params@.connection_id {
                        Some(id) => id,
                        None => "local"@,
                    }
                },
                (Err(f), Err(m)) => f@ == m,
                _ => false,
            },
    {
        let path = match settle_join(&self.joined, base, path) {
            Ok(path) => path,
            Err(f) => {
                return Err(f);
            },
        };
        let p = &self.params;
        let connection = match &p.connection_id {
            Some(id) => id.clone(),
            None => "local".to_owned(),
        };
        match Filter::build(&p.keyword, &p.level, &None, &None, p.regex) {
            Ok(filter) => Ok(
                TailJob {
                    connection,
                    file: file_text(p),
                    path,
                    filter,
                    last_n: clamp(p.last_n, 200, 0, MAX_LAST_LINES),
                },
            ),
            Err(f) => Err(f),
        }
    }
}

/// A chunk of a download whose file is yet to be looked up.
#[derive(Debug)]
pub struct DownloadPlan {
    pub joined: Joined,
    pub file: String,
    pub filter: Filter,
    pub offset: u64,
    pub length: u64,
}

/// What a request for a chunk asks for: the file and the filter, or why it is
/// refused. The filter is checked before the path.
pub open spec fn download_of(
    sessions: Map<Seq<char>, Seq<Seq<char>>>,
    p: ParamsModel,
) -> Result<(JoinedModel, FilterModel), FaultModel> {
    match session_of(sessions, p.connection_id) {
        Err(f) => Err(f),
        Ok(dirs) => match needed(p.file, "Missing file"@) {
            Err(f) => Err(f),
            Ok(file) => match filter_of(wanted_any_time(p)) {
                Err(f) => Err(f),
                Ok(filter) => match joined(dirs, file) {
                    Err(f) => Err(f),
                    Ok(j) => Ok((j, filter)),
                },
            },
        },
    }
}

/// Plans a chunk of a download.
pub fn plan_download(sessions: &Sessions, p: &Params) -> (r: Result<DownloadPlan, Fault>)
    requires
        sessions.wf(),
    ensures
        match (r, download_of(sessions@, p@)) {
            (Ok(plan), Ok((j, filter))) => {
                &&& plan.joined@ == j
                &&& plan.filter@ == filter
                &&& p@.file == Some(plan.file@)
                &&& plan.offset == number_or(p@.offset, 0)
                &&& plan.offset == chunk_offset(p@)
                &&& plan.length == clamped(number_or(p@.length, 2000), 1, MAX_CHUNK)
                &&& plan.length == chunk_length(p@)
            },
            (Err(f), Err(m)) => f@ == m,
            _ => false,
        },
{
    let session = match find_session(sessions, p) {
        Ok(session) => session,
        Err(f) => {
            return Err(f);
        },
    };
    let file = match need(&p.file, "Missing file") {
        Ok(file) => file,
        Err(f) => {
            return Err(f);
        },
    };
    let filter = match Filter::build(&p.keyword, &p.level, &None, &None, p.regex) {
        Ok(filter) => filter,
        Err(f) => {
            return Err(f);
        },
    };
    let joined = match safe_join(&session, file.as_str()) {
        Ok(joined) => joined,
        Err(f) => {
            return Err(f);
        },
    };
    let offset: u64 = match p.offset {
        Some(n) => n,
        None => 0,
    };
    Ok(
        DownloadPlan {
            joined,
            file,
            filter,
            offset,
            length: clamp(p.length, 2000, 1, MAX_CHUNK),
        },
    )
}

/// What is browsed: the roots, or a directory that is yet to be looked up.
#[derive(Debug)]
pub enum BrowsePlan {
    Roots(Listing),
    Dir { dir: String, joined: Joined },
}

/// The directory that a request names; an empty name stands for the roots.
pub open spec fn dir_of(p: ParamsModel) -> Seq<char> {
    match p.dir {
        Some(dir) => trimmed(dir),
        None => ""@,
    }
}

/// Plans what is browsed.
pub fn plan_browse(sessions: &Sessions, p: &Params) -> (r: Result<BrowsePlan, Fault>)
    requires
        sessions.wf(),
    ensures
        match session_of(sessions@, p@.connection_id) {
            Err(m) => r is Err && r->Err_0@ == m,
            Ok(dirs) => if dir_of(p@).len() == 0 {
                r matches Ok(BrowsePlan::Roots(listing)) && lists_roots(listing, dirs)
            } else {
                match (r, joined(dirs, dir_of(p@))) {
                    (Ok(BrowsePlan::Dir { dir, joined }), Ok(m)) => dir@ == dir_of(p@) && joined@
                        == m,
                    (Err(f), Err(m)) => f@ == m,
                    _ => false,
                }
            },
        },
{
    let session = match find_session(sessions, p) {
        Ok(session) => session,
        Err(f) => {
            return Err(f);
        },
    };
    let dir = match &p.dir {
        Some(dir) => trim(dir.as_str()),
        None => "".to_owned(),
    };
    assert(""@.len() == 0) by {
        reveal_strlit("");
    }
    if dir.as_str().is_empty() {
        return Ok(BrowsePlan::Roots(list_roots(&session)));
    }
    match safe_join(&session, dir.as_str()) {
        Ok(joined) => Ok(BrowsePlan::Dir { dir, joined }),
        Err(f) => Err(f),
    }
}

/// Why a directory that was looked up is not browsed, if it is not.
pub open spec fn dir_refusal(
    joined: JoinedModel,
    base: Result<Seq<u8>, Seq<char>>,
    path: Result<Seq<u8>, Seq<char>>,
    is_dir: bool,
) -> Option<FaultModel> {
    match refusal(joined, base, path) {
        Some(f) => Some(f),
        None => if is_dir {
            None
        } else {
            Some(invalid("不是目录"@))
        },
    }
}

/// The path of the directory that is browsed, once it has been looked up. It must
/// be a directory.
pub fn open_dir(
    joined: &Joined,
    base: Result<Vec<u8>, String>,
    path: Result<Vec<u8>, String>,
    is_dir: bool,
) -> (r: Result<String, Fault>)
    ensures
        match refusal(joined@, lookup_of(base), lookup_of(path)) {
            Some(m) => r is Err && r->Err_0@ == m,
            None => if is_dir {
                r is Ok && r->Ok_0@ == bytes_text(path->Ok_0@)
            } else {
                r is Err && r->Err_0@ == invalid("不是目录"@)
            },
        },
        match dir_refusal(joined@, lookup_of(base), lookup_of(path), is_dir) {
            Some(m) => r is Err && r->Err_0@ == m,
            None => r is Ok && r->Ok_0@ == bytes_text(path->Ok_0@),
        },
{
    match settle_join(joined, base, path) {
        Ok(path) => if is_dir {
            Ok(path)
        } else {
            Err(Fault::invalid("不是目录"))
        },
        Err(f) => Err(f),
    }
}

/// The name of the stream that a request stops, or why there is none.
pub open spec fn stream_of(p: ParamsModel) -> Result<Seq<char>, FaultModel> {
    needed(p.stream_id, "Missing streamId"@)
}

/// The name of the connection that a request opens or closes, or why there is none.
pub open spec fn connection_name(c: ConnectionModel) -> Result<Seq<char>, FaultModel> {
    needed(c.id, "Missing connection id"@)
}

/// What a request to open a connection asks for, or why it is refused.
pub open spec fn connect_of(c: ConnectionModel) -> Result<(Seq<char>, RootsModel), FaultModel> {
    match connection_name(c) {
        Err(f) => Err(f),
        Ok(id) => match connection_roots(c) {
            Err(f) => Err(f),
            Ok(roots) => Ok((id, roots)),
        },
    }
}

/// The name of the stream that a request stops.
pub fn plan_stop(p: &Params) -> (r: Result<String, Fault>)
    ensures
        match (r, needed(p@.stream_id, "Missing streamId"@)) {
            (Ok(id), Ok(m)) => id@ == m,
            (Err(f), Err(m)) => f@ == m,
            _ => false,
        },
        match (r, stream_of(p@)) {
            (Ok(id), Ok(m)) => id@ == m,
            (Err(f), Err(m)) => f@ == m,
            _ => false,
        },
{
    need(&p.stream_id, "Missing streamId")
}

/// The name of the connection that a request closes.
pub fn plan_disconnect(c: &ConnectionParams) -> (r: Result<String, Fault>)
    ensures
        match (r, needed(c@.id, "Missing connection id"@)) {
            (Ok(id), Ok(m)) => id@ == m,
            (Err(f), Err(m)) => f@ == m,
            _ => false,
        },
        match (r, connection_name(c@)) {
            (Ok(id), Ok(m)) => id@ == m,
            (Err(f), Err(m)) => f@ == m,
            _ => false,
        },
{
    need(&c.id, "Missing connection id")
}

/// The list of roots of a connection and the roots in it.
pub struct RootsModel {
    pub raw: Seq<char>,
    pub dirs: Seq<Seq<char>>,
}

/// The roots that a request gives for a connection, or why they are refused.
pub open spec fn connection_roots(c: ConnectionModel) -> Result<RootsModel, FaultModel> {
    match needed(c.log_dir, "Missing log_dir"@) {
        Err(f) => Err(f),
        Ok(raw) => match roots_of(raw) {
            Err(f) => Err(f),
            Ok(dirs) => Ok(RootsModel { raw, dirs }),
        },
    }
}

/// The list of roots of a connection and the roots in it.
#[derive(Debug)]
pub struct RootsPlan {
    pub raw: String,
    pub dirs: Vec<String>,
}

impl View for RootsPlan {
    type V = RootsModel;

    open spec fn view(&self) -> RootsModel {
        RootsModel { raw: self.raw@, dirs: texts(self.dirs@) }
    }
}

/// Plans a test of a connection: all its roots are to be read.
pub fn plan_test(c: &ConnectionParams) -> (r: Result<RootsPlan, Fault>)
    ensures
        match (r, connection_roots(c@)) {
            (Ok(plan), Ok(m)) => plan@ == m,
            (Err(f), Err(m)) => f@ == m,
            _ => false,
        },
{
    let raw = match need(&c.log_dir, "Missing log_dir") {
        Ok(raw) => raw,
        Err(f) => {
            return Err(f);
        },
    };
    match parse_roots(raw.as_str()) {
        Ok(dirs) => Ok(RootsPlan { raw, dirs }),
        Err(f) => Err(f),
    }
}

/// A connection that can be opened when all its roots have been read.
#[derive(Debug)]
pub struct ConnectPlan {
    pub id: String,
    pub roots: RootsPlan,
}

/// Plans to open a connection.
pub fn plan_connect(c: &ConnectionParams) -> (r: Result<ConnectPlan, Fault>)
    ensures
        match needed(c@.id, "Missing connection id"@) {
            Err(m) => r is Err && r->Err_0@ == m,
            Ok(id) => match (r, connection_roots(c@)) {
                (Ok(plan), Ok(m)) => plan.id@ == id && plan.roots@ == m,
                (Err(f), Err(m)) => f@ == m,
                _ => false,
            },
        },
        match (r, connect_of(c@)) {
            (Ok(plan), Ok((id, roots))) => plan.id@ == id && plan.roots@ == roots,
            (Err(f), Err(m)) => f@ == m,
            _ => false,
        },
{
    let id = match need(&c.id, "Missing connection id") {
        Ok(id) => id,
        Err(f) => {
            return Err(f);
        },
    };
    match plan_test(c) {
        Ok(roots) => Ok(ConnectPlan { id, roots }),
        Err(f) => Err(f),
    }
}

/// What was read of the directories from position `k` on: the number of logs, or
/// why the first that cannot be read cannot.
pub open spec fn logs_from(
    dirs: Seq<Seq<char>>,
    reads: Seq<Result<Vec<String>, String>>,
    k: int,
) -> Result<nat, FaultModel>
    decreases reads.len() - k,
{
    if k < 0 || k >= reads.len() {
        Ok(0)
    } else {
        match files_of(reads[k]) {
            Err(e) => Err(unreadable(dirs[k], e)),
            Ok(names) => match logs_from(dirs, reads, k + 1) {
                Err(f) => Err(f),
                Ok(n) => Ok(logs_among(names) + n),
            },
        }
    }
}

/// How many logs there are in the directories `dirs`, of which `reads` says what was
/// read of each. All must be readable.
pub fn check_dirs(dirs: &Vec<String>, reads: &Vec<Result<Vec<String>, String>>) -> (r: Result<
    u128,
    Fault,
>)
    requires
        reads.len() == dirs.len(),
    ensures
        match (r, logs_from(texts(dirs@), reads@, 0)) {
            (Ok(n), Ok(m)) => n == m,
            (Err(f), Err(m)) => f@ == m,
            _ => false,
        },
{
    let ghost names = texts(dirs@);
    let mut total: u128 = 0;
    let mut k: usize = 0;
    while k < reads.len()
        invariant
            k <= reads.len() == dirs.len(),
            names == texts(dirs@),
            total <= k * usize::MAX,
            match (logs_from(names, reads@, 0), logs_from(names, reads@, k as int)) {
                (Ok(all), Ok(rest)) => all == total + rest,
                (Err(a), Err(b)) => a == b,
                _ => false,
            },
        decreases reads.len() - k,
    {
        match count_log_files(dirs[k].as_str(), &reads[k]) {
            Ok(n) => {
                proof {
                    lemma_total_fits(total as int, n as int, k as int);
                }
                total = total + n as u128;
            },
            Err(f) => {
                return Err(f);
            },
        }
        k += 1;
    }
    Ok(total)
}

proof fn lemma_total_fits(total: int, n: int, k: int)
    requires
        0 <= total <= k * usize::MAX,
        0 <= n <= usize::MAX,
        0 <= k < usize::MAX,
    ensures
        total + n <= (k + 1) * usize::MAX,
        total + n <= u128::MAX,
{
    assert((k + 1) * usize::MAX == k * usize::MAX + usize::MAX) by (nonlinear_arith);
    assert((k + 1) * usize::MAX <= usize::MAX * usize::MAX) by (nonlinear_arith)
        requires
            k + 1 <= usize::MAX,
            0 <= usize::MAX,
    ;
    assert(usize::MAX * usize::MAX <= u128::MAX) by (nonlinear_arith)
        requires
            0 <= usize::MAX <= 0xffff_ffff_ffff_ffff,
    ;
}

/// What a test of a connection answers.
pub open spec fn report_of(total: nat, raw: Seq<char>) -> Seq<char> {
    "目录可读，共 "@ + decimal(total) + " 个日志文件："@ + raw
}

/// What a test of a connection answers.
pub fn test_message(total: u128, raw: &str) -> (message: String)
    ensures
        message@ == "目录可读，共 "@ + decimal(total as nat) + " 个日志文件："@ + raw@,
        message@ == report_of(total as nat, raw@),
{
    let mut message = "目录可读，共 ".to_owned();
    message.append(decimal_text(total).as_str());
    message.append(" 个日志文件：");
    message.append(raw);
    message
}

} // verus!
