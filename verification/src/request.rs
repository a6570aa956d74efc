//! The parameters of a request, as plain values.

use vstd::prelude::*;

use crate::json::{
    flag_at, get_flag, get_text, get_whole, json_of, member, member_of, string_view, text_at,
    whole_at, Json,
};
use crate::text::{trim, trimmed};

verus! {

/// The text of the member `key` of `holder` without white space around it, if
/// any is left.
pub open spec fn filled_at(holder: Json, key: Seq<char>) -> Option<Seq<char>> {
    match text_at(holder, key) {
        Some(s) => if trimmed(s).len() > 0 {
            Some(trimmed(s))
        } else {
            None
        },
        None => None,
    }
}

/// The text of the member `key` of a holder that may be missing.
pub open spec fn filled_in(holder: Option<Json>, key: Seq<char>) -> Option<Seq<char>> {
    match holder {
        Some(h) => filled_at(h, key),
        None => None,
    }
}

/// The setting `key` of a connection: it stands among the external settings, the
/// settings or in the connection itself, and the first that is filled counts.
pub open spec fn setting(conn: Json, key: Seq<char>) -> Option<Seq<char>> {
    let outer = filled_in(member_of(conn, "external_config"@), key);
    let inner = filled_in(member_of(conn, "config"@), key);
    if outer is Some {
        outer
    } else if inner is Some {
        inner
    } else {
        filled_at(conn, key)
    }
}

/// The first setting that is filled of those from position `k` on.
pub open spec fn first_setting(conn: Json, keys: Seq<&str>, k: int) -> Option<Seq<char>>
    decreases keys.len() - k,
{
    if k < 0 || k >= keys.len() {
        None
    } else if setting(conn, keys[k]@) is Some {
        setting(conn, keys[k]@)
    } else {
        first_setting(conn, keys, k + 1)
    }
}

fn filled(holder: Option<&serde_json::Value>, key: &str) -> (s: Option<String>)
    ensures
        string_view(s) == match holder {
            Some(h) => filled_at(json_of(*h), key@),
            None => None,
        },
{
    match holder {
        Some(h) => match get_text(h, key) {
            Some(s) => {
                let t = trim(s.as_str());
                if t.as_str().is_empty() {
                    None
                } else {
                    Some(t)
                }
            },
            None => None,
        },
        None => None,
    }
}

/// The first setting of a connection that is filled.
pub fn str_field(conn: &serde_json::Value, keys: &[&str]) -> (s: Option<String>)
    ensures
        string_view(s) == first_setting(json_of(*conn), keys@, 0),
{
    let mut k: usize = 0;
    while k < keys.len()
        invariant
            k <= keys.len(),
            first_setting(json_of(*conn), keys@, 0) == first_setting(
                json_of(*conn),
                keys@,
                k as int,
            ),
        decreases keys.len() - k,
    {
        let outer = filled(member(conn, "external_config"), keys[k]);
        if outer.is_some() {
            return outer;
        }
        let inner = filled(member(conn, "config"), keys[k]);
        if inner.is_some() {
            return inner;
        }
        let own = filled(Some(conn), keys[k]);
        if own.is_some() {
            return own;
        }
        k += 1;
    }
    None
}

/// What a request says of a connection: its name and its list of roots.
#[derive(Debug, Default)]
pub struct ConnectionParams {
    pub id: Option<String>,
    pub log_dir: Option<String>,
}

/// The parameters of a connection as a value.
pub struct ConnectionModel {
    pub id: Option<Seq<char>>,
    pub log_dir: Option<Seq<char>>,
}

impl View for ConnectionParams {
    type V = ConnectionModel;

    open spec fn view(&self) -> ConnectionModel {
        ConnectionModel { id: string_view(self.id), log_dir: string_view(self.log_dir) }
    }
}

/// What the parameters of a request say of a connection.
pub open spec fn connection_of(params: Json) -> ConnectionModel {
    match member_of(params, "connection"@) {
        Some(conn) => ConnectionModel {
            id: text_at(conn, "id"@),
            log_dir: setting(conn, "log_dir"@),
        },
        None => ConnectionModel { id: None, log_dir: None },
    }
}

impl ConnectionParams {
    /// Reads what the parameters of a request say of a connection.
    pub fn read(params: &serde_json::Value) -> (c: ConnectionParams)
        ensures
            c@ == connection_of(json_of(*params)),
    {
        match member(params, "connection") {
            Some(conn) => {
                let keys: [&str; 1] = ["log_dir"];
                let log_dir = str_field(conn, keys.as_slice());
                proof {
                    reveal_with_fuel(first_setting, 2);
                }
                ConnectionParams { id: get_text(conn, "id"), log_dir }
            },
            None => ConnectionParams { id: None, log_dir: None },
        }
    }
}

/// What a request says of the logs it asks for.
#[derive(Debug, Default)]
pub struct Params {
    pub connection_id: Option<String>,
    pub file: Option<String>,
    pub dir: Option<String>,
    pub stream_id: Option<String>,
    pub keyword: Option<String>,
    pub level: Option<String>,
    pub start_time: Option<String>,
    pub end_time: Option<String>,
    pub page: Option<u64>,
    pub page_size: Option<u64>,
    pub sort: Option<String>,
    pub regex: Option<bool>,
    pub context: Option<u64>,
    pub last_n: Option<u64>,
    pub offset: Option<u64>,
    pub length: Option<u64>,
}

/// The parameters of a request as a value.
pub struct ParamsModel {
    pub connection_id: Option<Seq<char>>,
    pub file: Option<Seq<char>>,
    pub dir: Option<Seq<char>>,
    pub stream_id: Option<Seq<char>>,
    pub keyword: Option<Seq<char>>,
    pub level: Option<Seq<char>>,
    pub start_time: Option<Seq<char>>,
    pub end_time: Option<Seq<char>>,
    pub page: Option<u64>,
    pub page_size: Option<u64>,
    pub sort: Option<Seq<char>>,
    pub regex: Option<bool>,
    pub context: Option<u64>,
    pub last_n: Option<u64>,
    pub offset: Option<u64>,
    pub length: Option<u64>,
}

impl View for Params {
    type V = ParamsModel;

    open spec fn view(&self) -> ParamsModel {
        ParamsModel {
            connection_id: string_view(self.connection_id),
            file: string_view(self.file),
            dir: string_view(self.dir),
            stream_id: string_view(self.stream_id),
            keyword: string_view(self.keyword),
            level: string_view(self.level),
            start_time: string_view(self.start_time),
            end_time: string_view(self.end_time),
            page: self.page,
            page_size: self.page_size,
            sort: string_view(self.sort),
            regex: self.regex,
            context: self.context,
            last_n: self.last_n,
            offset: self.offset,
            length: self.length,
        }
    }
}

/// What the members of an object say of the logs that are asked for.
pub open spec fn params_of(j: Json) -> ParamsModel {
    ParamsModel {
        connection_id: text_at(j, "connectionId"@),
        file: text_at(j, "file"@),
        dir: text_at(j, "dir"@),
        stream_id: text_at(j, "streamId"@),
        keyword: text_at(j, "keyword"@),
        level: text_at(j, "level"@),
        start_time: text_at(j, "startTime"@),
        end_time: text_at(j, "endTime"@),
        page: whole_at(j, "page"@),
        page_size: whole_at(j, "pageSize"@),
        sort: text_at(j, "sort"@),
        regex: flag_at(j, "regex"@),
        context: whole_at(j, "context"@),
        last_n: whole_at(j, "lastN"@),
        offset: whole_at(j, "offset"@),
        length: whole_at(j, "length"@),
    }
}

impl Params {
    /// Reads the parameters of a request.
    pub fn read(v: &serde_json::Value) -> (p: Params)
        ensures
            p@ == params_of(json_of(*v)),
    {
        Params {
            connection_id: get_text(v, "connectionId"),
            file: get_text(v, "file"),
            dir: get_text(v, "dir"),
            stream_id: get_text(v, "streamId"),
            keyword: get_text(v, "keyword"),
            level: get_text(v, "level"),
            start_time: get_text(v, "startTime"),
            end_time: get_text(v, "endTime"),
            page: get_whole(v, "page"),
            page_size: get_whole(v, "pageSize"),
            sort: get_text(v, "sort"),
            regex: get_flag(v, "regex"),
            context: get_whole(v, "context"),
            last_n: get_whole(v, "lastN"),
            offset: get_whole(v, "offset"),
            length: get_whole(v, "length"),
        }
    }
}

} // verus!
