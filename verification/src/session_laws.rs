//! What a request says, and which streams end with a connection.

use std::time::{Duration, SystemTimeError};

use vstd::prelude::*;

use crate::clock::{millis_passed, whole_millis};
use crate::json::{flag_at, member_of, string_view, text_at, whole_at, Json};
use crate::request::{
    connection_of, first_setting, params_of, setting, ConnectionParams, Params,
};
use crate::session::{stream_front, stream_name, streams_ended};
use crate::store::{holds_values, lists_values};
use crate::text::{begins_with, decimal, trimmed};

verus! {

/// A member of an object is found under its name, and read where it is of the kind that is
/// asked for.
pub proof fn law_members(members: Map<Seq<char>, Json>, key: Seq<char>)
    ensures
        member_of(Json::Object(members), key) is Some <==> members.contains_key(key),
        members.contains_key(key) ==> member_of(Json::Object(members), key) == Some(members[key]),
        text_at(Json::Object(members), key) is Some <==> members.contains_key(key)
            && members[key] is Text,
        members.contains_key(key) && members[key] is Text ==> text_at(Json::Object(members), key)
            == Some(members[key]->Text_0),
        members.contains_key(key) && members[key] is Number ==> whole_at(
            Json::Object(members),
            key,
        ) == members[key]->Number_0,
        !(members.contains_key(key) && members[key] is Number) ==> whole_at(
            Json::Object(members),
            key,
        ) is None,
        flag_at(Json::Object(members), key) is Some <==> members.contains_key(key)
            && members[key] is Bool,
        members.contains_key(key) && members[key] is Bool ==> flag_at(Json::Object(members), key)
            == Some(members[key]->Bool_0),
{
}

/// Each parameter of a request is read from the member of its own name.
pub proof fn law_params(j: Json)
    ensures
        params_of(j).connection_id == text_at(j, "connectionId"@),
        params_of(j).file == text_at(j, "file"@),
        params_of(j).dir == text_at(j, "dir"@),
        params_of(j).stream_id == text_at(j, "streamId"@),
        params_of(j).keyword == text_at(j, "keyword"@),
        params_of(j).level == text_at(j, "level"@),
        params_of(j).start_time == text_at(j, "startTime"@),
        params_of(j).end_time == text_at(j, "endTime"@),
        params_of(j).page == whole_at(j, "page"@),
        params_of(j).page_size == whole_at(j, "pageSize"@),
        params_of(j).sort == text_at(j, "sort"@),
        params_of(j).regex == flag_at(j, "regex"@),
        params_of(j).context == whole_at(j, "context"@),
        params_of(j).last_n == whole_at(j, "lastN"@),
        params_of(j).offset == whole_at(j, "offset"@),
        params_of(j).length == whole_at(j, "length"@),
{
}

/// The values of parameters are what they hold.
pub proof fn law_parameter_values(p: Params, c: ConnectionParams, s: String)
    ensures
        string_view(Some(s)) == Some(s@),
        string_view(None) is None,
        p@.connection_id == string_view(p.connection_id),
        p@.file == string_view(p.file),
        p@.dir == string_view(p.dir),
        p@.stream_id == string_view(p.stream_id),
        p@.keyword == string_view(p.keyword),
        p@.level == string_view(p.level),
        p@.start_time == string_view(p.start_time),
        p@.end_time == string_view(p.end_time),
        p@.page == p.page,
        p@.page_size == p.page_size,
        p@.sort == string_view(p.sort),
        p@.regex == p.regex,
        p@.context == p.context,
        p@.last_n == p.last_n,
        p@.offset == p.offset,
        p@.length == p.length,
        c@.id == string_view(c.id),
        c@.log_dir == string_view(c.log_dir),
{
}

/// A setting that is filled among the external settings counts before one among the
/// settings, and that before one in the connection itself; what is only white space counts
/// as missing, and white space around a setting is no part of it.
pub proof fn law_setting(conn: Json, key: Seq<char>, outer: Json, inner: Json)
    ensures
        member_of(conn, "external_config"@) == Some(outer) && text_at(outer, key) is Some
            && trimmed(text_at(outer, key)->0).len() > 0 ==> setting(conn, key) == Some(
            trimmed(text_at(outer, key)->0),
        ),
        (member_of(conn, "external_config"@) is None || member_of(conn, "external_config"@) == Some(
            outer,
        ) && (text_at(outer, key) is None || trimmed(text_at(outer, key)->0).len() == 0)) ==> {
            &&& member_of(conn, "config"@) == Some(inner) && text_at(inner, key) is Some && trimmed(
                text_at(inner, key)->0,
            ).len() > 0 ==> setting(conn, key) == Some(trimmed(text_at(inner, key)->0))
            &&& (member_of(conn, "config"@) is None || member_of(conn, "config"@) == Some(inner)
                && (text_at(inner, key) is None || trimmed(text_at(inner, key)->0).len() == 0))
                ==> {
                &&& text_at(conn, key) is Some && trimmed(text_at(conn, key)->0).len() > 0
                    ==> setting(conn, key) == Some(trimmed(text_at(conn, key)->0))
                &&& (text_at(conn, key) is None || trimmed(text_at(conn, key)->0).len() == 0)
                    ==> setting(conn, key) is None
            }
        },
{
}

/// Of several settings the first that is filled counts.
pub proof fn law_first_setting(conn: Json, keys: Seq<&str>, k: int)
    requires
        0 <= k < keys.len(),
        forall|m: int| 0 <= m < k ==> setting(conn, (#[trigger] keys[m])@) is None,
    ensures
        setting(conn, keys[k]@) is Some ==> first_setting(conn, keys, 0) == setting(
            conn,
            keys[k]@,
        ),
        k == keys.len() - 1 && setting(conn, keys[k]@) is None ==> first_setting(conn, keys, 0)
            is None,
{
    lemma_first_setting(conn, keys, 0, k);
}

proof fn lemma_first_setting(conn: Json, keys: Seq<&str>, i: int, k: int)
    requires
        0 <= i <= k < keys.len(),
        forall|m: int| 0 <= m < k ==> setting(conn, (#[trigger] keys[m])@) is None,
    ensures
        first_setting(conn, keys, i) == first_setting(conn, keys, k),
        setting(conn, keys[k]@) is Some ==> first_setting(conn, keys, k) == setting(
            conn,
            keys[k]@,
        ),
        k == keys.len() - 1 && setting(conn, keys[k]@) is None ==> first_setting(conn, keys, k)
            is None,
    decreases k - i,
{
    if i < k {
        assert(setting(conn, keys[i]@) is None);
        lemma_first_setting(conn, keys, i + 1, k);
    } else {
        reveal_with_fuel(first_setting, 2);
    }
}

/// A connection has the name `id` and the list of roots `log_dir` of the member
/// `connection`.
pub proof fn law_connection(params: Json, conn: Json)
    ensures
        member_of(params, "connection"@) == Some(conn) ==> connection_of(params).id == text_at(
            conn,
            "id"@,
        ) && connection_of(params).log_dir == setting(conn, "log_dir"@),
        member_of(params, "connection"@) is None ==> connection_of(params).id is None
            && connection_of(params).log_dir is None,
{
}

/// The name of a stream is made of the connection, the file and the moment, with colons
/// between them.
pub proof fn law_stream_name(connection: Seq<char>, file: Seq<char>, millis: nat)
    ensures
        stream_name(connection, file, millis) == connection + seq![':'] + file + seq![':']
            + decimal(millis),
        stream_front(connection) == connection + seq![':'],
{
    reveal_strlit(":");
    assert(":"@ =~= seq![':']);
}

/// With a connection end the streams whose names begin with its name and a colon, and no
/// others.
pub proof fn law_streams_end<F>(
    before: Map<Seq<char>, F>,
    after: Map<Seq<char>, F>,
    connection: Seq<char>,
    rest: Seq<char>,
    key: Seq<char>,
)
    requires
        streams_ended(before, after, connection),
    ensures
        !after.contains_key(connection + seq![':'] + rest),
        !(key.len() > connection.len() && key.take(connection.len() as int) == connection
            && key[connection.len() as int] == ':') ==> {
            &&& after.contains_key(key) <==> before.contains_key(key)
            &&& before.contains_key(key) ==> after[key] == before[key]
        },
{
    reveal_strlit(":");
    let front = stream_front(connection);
    assert(front =~= connection + seq![':']);
    let gone = connection + seq![':'] + rest;
    assert(gone.take(front.len() as int) =~= front);
    assert(begins_with(gone, front));
    if begins_with(key, front) {
        let n = connection.len() as int;
        assert(key.take(n) =~= connection) by {
            assert forall|k: int| 0 <= k < n implies key[k] == connection[k] by {
                assert(key.take(front.len() as int)[k] == front[k]);
            }
        }
        assert(key.take(front.len() as int)[n] == front[n]);
    }
}

/// What is handed out are the values of the keys that begin with `front`, each once.
pub proof fn law_handed_out<V>(out: Seq<V>, table: Map<Seq<char>, V>, front: Seq<char>)
    requires
        holds_values(out, table, front),
    ensures
        forall|k: Seq<char>| #[trigger]
            table.contains_key(k) && begins_with(k, front) ==> out.contains(table[k]),
        forall|v: V| #[trigger]
            out.contains(v) ==> exists|k: Seq<char>|
                #![trigger table[k]]
                table.contains_key(k) && begins_with(k, front) && table[k] == v,
        out.len() == Set::new(|k: Seq<char>| table.contains_key(k) && begins_with(k, front)).len(),
{
    let keys = choose|keys: Seq<Seq<char>>| #[trigger] lists_values(keys, out, table, front);
    assert forall|k: Seq<char>| #[trigger]
        table.contains_key(k) && begins_with(k, front) implies out.contains(table[k]) by {
        assert(keys.contains(k));
        let x = choose|x: int| 0 <= x < keys.len() && keys[x] == k;
        assert(out[x] == table[keys[x]]);
    }
    assert forall|v: V| #[trigger] out.contains(v) implies exists|k: Seq<char>|
        #![trigger table[k]]
        table.contains_key(k) && begins_with(k, front) && table[k] == v by {
        let x = choose|x: int| 0 <= x < out.len() && out[x] == v;
        let k = keys[x];
        assert(keys.contains(k));
        assert(table.contains_key(k) && table[k] == v);
    }
    keys.unique_seq_to_set();
    let chosen = Set::new(|k: Seq<char>| table.contains_key(k) && begins_with(k, front));
    assert(keys.to_set() =~= chosen);
}

/// The milliseconds that have passed are those of the span of time, and none where the
/// clock stands before its start.
pub proof fn law_millis(d: Duration, e: SystemTimeError)
    ensures
        millis_passed(Ok(d)) == whole_millis(d),
        millis_passed(Err(e)) == 0,
{
}

} // verus!
