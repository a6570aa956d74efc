//! The connections that are open and the streams that are followed.

use vstd::prelude::*;

use crate::fault::{failed, invalid, Fault};
use crate::paths::Session;
use crate::roots::{check_names, first_repeated, names_refusal};
use crate::store::{holds_values, Store};
use crate::text::{begins_with, decimal, decimal_text, texts};

verus! {

impl Clone for Session {
    /// A session with the same roots.
    fn clone(&self) -> (s: Session)
        ensures
            s@ == self@,
    {
        let mut dirs: Vec<String> = Vec::new();
        let mut k: usize = 0;
        while k < self.log_dirs.len()
            invariant
                k <= self.log_dirs.len(),
                dirs@ == self.log_dirs@.take(k as int),
            decreases self.log_dirs.len() - k,
        {
            dirs.push(self.log_dirs[k].clone());
            assert(dirs@ =~= self.log_dirs@.take(k + 1));
            k += 1;
        }
        assert(self.log_dirs@.take(k as int) == self.log_dirs@);
        Session { log_dirs: dirs }
    }
}

/// The open connections, by their names.
pub struct Sessions {
    table: Store<Session>,
}

impl View for Sessions {
    type V = Map<Seq<char>, Seq<Seq<char>>>;

    closed spec fn view(&self) -> Map<Seq<char>, Seq<Seq<char>>> {
        self.table@.map_values(|s: Session| s@)
    }
}

impl Sessions {
    /// The names are all different.
    pub closed spec fn wf(&self) -> bool {
        self.table.wf()
    }

    /// No connection is open.
    pub fn new() -> (s: Sessions)
        ensures
            s.wf(),
            s@ == Map::<Seq<char>, Seq<Seq<char>>>::empty(),
    {
        let s = Sessions { table: Store::new() };
        assert(s@ =~= Map::<Seq<char>, Seq<Seq<char>>>::empty());
        s
    }

    /// Opens the connection `id` with the given roots. Their short names must
    /// differ. An open connection of that name is replaced.
    pub fn connect(&mut self, id: &str, dirs: Vec<String>) -> (r: Result<(), Fault>)
        requires
            old(self).wf(),
        ensures
            final(self).wf(),
            match first_repeated(texts(dirs@), 0) {
                Some(n) => r is Err && r->Err_0@ == invalid("根目录重名："@ + n) && final(self)@
                    == old(self)@,
                None => r is Ok && final(self)@ == old(self)@.insert(id@, texts(dirs@)),
            },
            match names_refusal(texts(dirs@)) {
                Some(m) => r is Err && r->Err_0@ == m && final(self)@ == old(self)@,
                None => r is Ok && final(self)@ == old(self)@.insert(id@, texts(dirs@)),
            },
    {
        match check_names(&dirs) {
            Ok(_) => {},
            Err(f) => {
                return Err(f);
            },
        }
        let s = Session { log_dirs: dirs };
        let ghost before = self.table@;
        let ghost added = s;
        self.table.insert(id.to_owned(), s);
        assert(before.insert(id@, added).map_values(|s: Session| s@) =~= before.map_values(
            |s: Session| s@,
        ).insert(id@, added@));
        Ok(())
    }

    /// Closes the connection `id`.
    pub fn disconnect(&mut self, id: &str)
        requires
            old(self).wf(),
        ensures
            final(self).wf(),
            final(self)@ == old(self)@.remove(id@),
    {
        let ghost before = self.table@;
        let _ = self.table.remove(id);
        assert(before.remove(id@).map_values(|s: Session| s@) =~= before.map_values(
            |s: Session| s@,
        ).remove(id@));
    }

    /// The roots of the connection `id`.
    pub fn session(&self, id: &str) -> (r: Result<Session, Fault>)
        requires
            self.wf(),
        ensures
            match r {
                Ok(s) => self@.contains_key(id@) && s@ == self@[id@],
                Err(f) => !self@.contains_key(id@) && f@ == failed(
                    "连接未建立：请先连接后再操作"@,
                ),
            },
    {
        match self.table.get(id) {
            Some(s) => Ok(s.clone()),
            None => Err(Fault::failed("连接未建立：请先连接后再操作")),
        }
    }
}

/// What the names of the streams of a connection begin with.
pub open spec fn stream_front(connection: Seq<char>) -> Seq<char> {
    connection + ":"@
}

/// The name of a stream: the connection, the file and the moment at which it was
/// opened.
pub open spec fn stream_name(connection: Seq<char>, file: Seq<char>, millis: nat) -> Seq<char> {
    connection + ":"@ + file + ":"@ + decimal(millis)
}

/// The name of a stream.
pub fn stream_id(connection: &str, file: &str, millis: u128) -> (id: String)
    ensures
        id@ == stream_name(connection@, file@, millis as nat),
{
    let mut id = connection.to_owned();
    id.append(":");
    id.append(file);
    id.append(":");
    id.append(decimal_text(millis).as_str());
    id
}

/// The name of a stream begins with what is looked for when its connection is
/// closed.
pub proof fn law_streams_of_connection(connection: Seq<char>, file: Seq<char>, millis: nat)
    ensures
        begins_with(stream_name(connection, file, millis), stream_front(connection)),
{
    let name = stream_name(connection, file, millis);
    let front = stream_front(connection);
    assert(name.take(front.len() as int) =~= front);
}

/// Of the streams `before` those of the connection are gone and the others are left
/// as they were.
pub open spec fn streams_ended<F>(
    before: Map<Seq<char>, F>,
    after: Map<Seq<char>, F>,
    connection: Seq<char>,
) -> bool {
    &&& forall|k: Seq<char>| #[trigger]
        after.contains_key(k) <==> before.contains_key(k) && !begins_with(
            k,
            stream_front(connection),
        )
    &&& forall|k: Seq<char>| #[trigger] after.contains_key(k) ==> after[k] == before[k]
}

/// When a connection is closed none of its streams is followed any more.
pub proof fn law_own_streams_end<F>(
    before: Map<Seq<char>, F>,
    after: Map<Seq<char>, F>,
    connection: Seq<char>,
    file: Seq<char>,
    millis: nat,
)
    requires
        streams_ended(before, after, connection),
    ensures
        !after.contains_key(stream_name(connection, file, millis)),
{
    law_streams_of_connection(connection, file, millis);
}

/// When a connection is closed the streams of another one are followed on. This is
/// not so where the other name goes on behind the name that is closed and a colon, or
/// where the name that is closed goes on behind the other one and a colon just as the
/// stream does.
pub proof fn law_other_streams_stay<F>(
    before: Map<Seq<char>, F>,
    after: Map<Seq<char>, F>,
    connection: Seq<char>,
    other: Seq<char>,
    file: Seq<char>,
    millis: nat,
)
    requires
        streams_ended(before, after, connection),
        other != connection,
        !begins_with(other, stream_front(connection)),
        begins_with(connection, stream_front(other)) ==> !begins_with(
            file + ":"@ + decimal(millis),
            connection.skip(other.len() as int + 1) + ":"@,
        ),
        before.contains_key(stream_name(other, file, millis)),
    ensures
        after.contains_key(stream_name(other, file, millis)),
        after[stream_name(other, file, millis)] == before[stream_name(other, file, millis)],
{
    reveal_strlit(":");
    let name = stream_name(other, file, millis);
    let front = stream_front(connection);
    if begins_with(name, front) {
        let n = connection.len() as int;
        let m = other.len() as int;
        assert(name[m] == ':');
        assert forall|k: int| 0 <= k < front.len() implies front[k] == #[trigger] name[k] by {
            assert(name.take(front.len() as int)[k] == name[k]);
        }
        if n < m {
            assert(other.take(n + 1) =~= front) by {
                assert forall|k: int| 0 <= k < n + 1 implies other[k] == front[k] by {
                    assert(name[k] == other[k]);
                }
            }
        } else if n == m {
            assert forall|k: int| 0 <= k < n implies connection[k] == other[k] by {
                assert(front[k] == name[k]);
            }
            assert(connection =~= other);
        } else {
            assert(connection.take(m + 1) =~= stream_front(other)) by {
                assert forall|k: int| 0 <= k < m + 1 implies connection[k] == stream_front(
                    other,
                )[k] by {
                    assert(front[k] == name[k]);
                }
            }
            let rest = connection.skip(m + 1) + ":"@;
            let back = file + ":"@ + decimal(millis);
            assert(back.take(rest.len() as int) =~= rest) by {
                assert forall|k: int| 0 <= k < rest.len() implies back[k] == rest[k] by {
                    assert(front[m + 1 + k] == name[m + 1 + k]);
                }
            }
        }
    }
}

/// The streams that are followed, by their names, each with what stops it.
pub struct Tails<F> {
    table: Store<F>,
}

impl<F> View for Tails<F> {
    type V = Map<Seq<char>, F>;

    closed spec fn view(&self) -> Map<Seq<char>, F> {
        self.table@
    }
}

impl<F> Tails<F> {
    /// The names are all different.
    pub closed spec fn wf(&self) -> bool {
        self.table.wf()
    }

    /// No stream is followed.
    pub fn new() -> (t: Tails<F>)
        ensures
            t.wf(),
            t@ == Map::<Seq<char>, F>::empty(),
    {
        Tails { table: Store::new() }
    }

    /// Follows the stream `id`.
    pub fn start(&mut self, id: &str, flag: F)
        requires
            old(self).wf(),
        ensures
            final(self).wf(),
            final(self)@ == old(self)@.insert(id@, flag),
    {
        self.table.insert(id.to_owned(), flag);
    }

    /// Forgets the stream `id`; what stops it is handed out.
    pub fn stop(&mut self, id: &str) -> (flag: Option<F>)
        requires
            old(self).wf(),
        ensures
            final(self).wf(),
            final(self)@ == old(self)@.remove(id@),
            match flag {
                Some(flag) => old(self)@.contains_key(id@) && flag == old(self)@[id@],
                None => !old(self)@.contains_key(id@),
            },
    {
        self.table.remove(id)
    }

    /// Forgets the streams of a connection; what stops them is handed out.
    pub fn stop_all(&mut self, connection: &str) -> (flags: Vec<F>)
        requires
            old(self).wf(),
        ensures
            final(self).wf(),
            streams_ended(old(self)@, final(self)@, connection@),
            holds_values(flags@, old(self)@, stream_front(connection@)),
    {
        let mut front = connection.to_owned();
        front.append(":");
        self.table.remove_front(front.as_str())
    }
}

} // verus!
