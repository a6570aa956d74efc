//! What a directory shows: its subdirectories and its logs, each in the order of
//! their names.

use vstd::prelude::*;
use vstd::utf8::encode_utf8;

use crate::fault::{failed, Fault, FaultModel};
use crate::paths::{
    below_root, first_part, is_refused, join_path, joined, message_about, path_below, Session,
};
use crate::roots::{base_name, is_absolute, root_name, starts_absolute};
use crate::text::{
    chars_of, contains_text, is_white, occurs_at, same_text, strip_front, text_of, texts, trim_back,
    trim_front, trimmed, upper, upper_text,
};

verus! {

/// What stands behind the last dot of a name, or the name where there is none.
pub open spec fn behind_dot(name: Seq<char>) -> Seq<char>
    decreases name.len(),
{
    if name.len() > 0 && name.last() != '.' {
        behind_dot(name.drop_last()).push(name.last())
    } else {
        seq![]
    }
}

/// The extension of a file name: what stands behind its last dot, unless that is
/// its first character.
pub open spec fn extension_of(name: Seq<char>) -> Option<Seq<char>> {
    let ext = behind_dot(name);
    if ext.len() + 1 < name.len() {
        Some(ext)
    } else {
        None
    }
}

/// The name of a log: its extension is `log` or `out`, in upper or lower case.
pub open spec fn is_log_name(name: Seq<char>) -> bool {
    match extension_of(name) {
        Some(ext) => upper(ext) == "LOG"@ || upper(ext) == "OUT"@,
        None => false,
    }
}

/// Whether a name is that of a log.
pub fn names_log(name: &str) -> (yes: bool)
    ensures
        yes == is_log_name(name@),
{
    let cs = chars_of(name);
    let mut a: usize = cs.len();
    assert(cs@.take(a as int) == cs@);
    assert(behind_dot(cs@.take(a as int)) + cs@.skip(a as int) =~= behind_dot(cs@));
    while a > 0 && cs[a - 1] != '.'
        invariant
            a <= cs.len(),
            behind_dot(cs@) == behind_dot(cs@.take(a as int)) + cs@.skip(a as int),
        decreases a,
    {
        assert(cs@.take(a as int).drop_last() == cs@.take(a - 1));
        assert(behind_dot(cs@.take(a - 1)).push(cs@[a - 1]) + cs@.skip(a as int)
            =~= behind_dot(cs@.take(a - 1)) + cs@.skip(a - 1));
        a -= 1;
    }
    assert(behind_dot(cs@) =~= cs@.skip(a as int));
    if a < 2 {
        return false;
    }
    assert(cs@.subrange(a as int, cs@.len() as int) == cs@.skip(a as int));
    let ext = upper_text(
        text_of(vstd::slice::slice_subrange(cs.as_slice(), a, cs.len())).as_str(),
    );
    same_text(ext.as_str(), "LOG") || same_text(ext.as_str(), "OUT")
}

/// How many of the names are those of logs.
pub open spec fn logs_among(names: Seq<Seq<char>>) -> nat
    decreases names.len(),
{
    if names.len() == 0 {
        0
    } else {
        logs_among(names.drop_last()) + if is_log_name(names.last()) {
            1nat
        } else {
            0nat
        }
    }
}

/// The names of the files in a directory as a value, or the message of the error.
pub open spec fn files_of(read: Result<Vec<String>, String>) -> Result<Seq<Seq<char>>, Seq<char>> {
    match read {
        Ok(names) => Ok(texts(names@)),
        Err(e) => Err(e@),
    }
}

/// Why the directory `dir` cannot be shown.
pub open spec fn unreadable(dir: Seq<char>, e: Seq<char>) -> FaultModel {
    failed("无法读取目录 "@ + dir + "："@ + e)
}

/// How many logs are among the files of the directory `dir`.
pub fn count_log_files(dir: &str, files: &Result<Vec<String>, String>) -> (r: Result<usize, Fault>)
    ensures
        match (r, files_of(*files)) {
            (Ok(n), Ok(names)) => n == logs_among(names),
            (Err(f), Err(e)) => f@ == unreadable(dir@, e),
            _ => false,
        },
{
    let names = match files {
        Ok(names) => names,
        Err(e) => {
            return Err(cannot_read(dir, e.as_str()));
        },
    };
    let ghost all = texts(names@);
    let mut n: usize = 0;
    let mut k: usize = 0;
    while k < names.len()
        invariant
            k <= names.len(),
            n <= k,
            all == texts(names@),
            n == logs_among(all.take(k as int)),
        decreases names.len() - k,
    {
        assert(all.take(k + 1).drop_last() == all.take(k as int));
        if names_log(names[k].as_str()) {
            n += 1;
        }
        k += 1;
    }
    assert(all.take(k as int) == all);
    Ok(n)
}

/// The answer where a directory cannot be read.
pub fn cannot_read(dir: &str, e: &str) -> (f: Fault)
    ensures
        f@ == unreadable(dir@, e@),
{
    Fault::failed(message_about("无法读取目录 ", dir, e).as_str())
}

/// `a` comes before `b` in the order of their bytes, or is the same.
pub open spec fn bytes_le(a: Seq<u8>, b: Seq<u8>) -> bool
    decreases a.len(),
{
    if a.len() == 0 {
        true
    } else if b.len() == 0 {
        false
    } else if a[0] == b[0] {
        bytes_le(a.drop_first(), b.drop_first())
    } else {
        a[0] < b[0]
    }
}

/// `a` comes before `b` in the order of texts, which is that of their bytes, or is
/// the same.
pub open spec fn text_le(a: Seq<char>, b: Seq<char>) -> bool {
    bytes_le(encode_utf8(a), encode_utf8(b))
}

proof fn lemma_bytes_total(a: Seq<u8>, b: Seq<u8>)
    ensures
        bytes_le(a, b) || bytes_le(b, a),
        bytes_le(a, a),
    decreases a.len(),
{
    if a.len() > 0 {
        lemma_bytes_total(a.drop_first(), b.drop_first());
    }
}

proof fn lemma_bytes_transitive(a: Seq<u8>, b: Seq<u8>, c: Seq<u8>)
    requires
        bytes_le(a, b),
        bytes_le(b, c),
    ensures
        bytes_le(a, c),
    decreases a.len(),
{
    if a.len() > 0 && b.len() > 0 && c.len() > 0 && a[0] == b[0] && b[0] == c[0] {
        lemma_bytes_transitive(a.drop_first(), b.drop_first(), c.drop_first());
    }
}

/// Whether `a` comes before `b` in the order of texts or is the same.
pub fn in_text_order(a: &str, b: &str) -> (yes: bool)
    ensures
        yes == text_le(a@, b@),
{
    let x = a.as_bytes();
    let y = b.as_bytes();
    let mut k: usize = 0;
    assert(x@.skip(0) == x@);
    assert(y@.skip(0) == y@);
    while k < x.len() && k < y.len() && x[k] == y[k]
        invariant
            k <= x.len(),
            k <= y.len(),
            bytes_le(x@, y@) == bytes_le(x@.skip(k as int), y@.skip(k as int)),
        decreases x.len() - k,
    {
        assert(x@.skip(k as int).drop_first() == x@.skip(k + 1));
        assert(y@.skip(k as int).drop_first() == y@.skip(k + 1));
        k += 1;
    }
    if k >= x.len() {
        return true;
    }
    k < y.len() && x[k] < y[k]
}

/// A list of named things as a value.
pub open spec fn pairs<T>(v: Seq<(String, T)>) -> Seq<(Seq<char>, T)> {
    v.map_values(|p: (String, T)| (p.0@, p.1))
}

/// The things in a list with the given name, in order.
pub open spec fn named<T>(v: Seq<(Seq<char>, T)>, name: Seq<char>) -> Seq<T>
    decreases v.len(),
{
    if v.len() == 0 {
        seq![]
    } else {
        let front = named(v.drop_last(), name);
        if v.last().0 == name {
            front.push(v.last().1)
        } else {
            front
        }
    }
}

/// A list is in the order of its names.
pub open spec fn is_sorted<T>(v: Seq<(Seq<char>, T)>) -> bool {
    forall|i: int, j: int|
        0 <= i < j < v.len() ==> text_le((#[trigger] v[i]).0, (#[trigger] v[j]).0)
}

/// `out` holds what `v` holds, in the order of the names; things of the same name
/// keep their order.
pub open spec fn sorts<T>(v: Seq<(Seq<char>, T)>, out: Seq<(Seq<char>, T)>) -> bool {
    &&& out.len() == v.len()
    &&& is_sorted(out)
    &&& forall|name: Seq<char>| #[trigger] named(out, name) == named(v, name)
}

proof fn lemma_named_join<T>(a: Seq<(Seq<char>, T)>, b: Seq<(Seq<char>, T)>, name: Seq<char>)
    ensures
        named(a + b, name) == named(a, name) + named(b, name),
    decreases b.len(),
{
    if b.len() == 0 {
        assert(a + b =~= a);
        assert(named(a, name) + named(b, name) =~= named(a, name));
    } else {
        lemma_named_join(a, b.drop_last(), name);
        assert((a + b).drop_last() =~= a + b.drop_last());
        assert((a + b).last() == b.last());
        assert(named(a + b, name) =~= named(a, name) + named(b, name));
    }
}

proof fn lemma_named_none<T>(a: Seq<(Seq<char>, T)>, name: Seq<char>)
    requires
        forall|i: int| 0 <= i < a.len() ==> (#[trigger] a[i]).0 != name,
    ensures
        named(a, name).len() == 0,
    decreases a.len(),
{
    if a.len() > 0 {
        lemma_named_none(a.drop_last(), name);
    }
}

proof fn lemma_named_one<T>(x: (Seq<char>, T), name: Seq<char>)
    ensures
        named(seq![x], name) == if x.0 == name {
            seq![x.1]
        } else {
            seq![]
        },
{
    reveal_with_fuel(named, 2);
    assert(seq![x].drop_last() =~= Seq::<(Seq<char>, T)>::empty());
    assert(named(seq![x], name) =~= if x.0 == name {
        seq![x.1]
    } else {
        seq![]
    });
}

/// A thing that is put in front of all with names not before its own, and behind
/// the others, leaves the list sorted and comes first among those of its name.
proof fn lemma_insert<T>(v: Seq<(Seq<char>, T)>, p: int, x: (Seq<char>, T))
    requires
        is_sorted(v),
        0 <= p <= v.len(),
        forall|i: int| 0 <= i < p ==> !text_le(x.0, (#[trigger] v[i]).0),
        forall|i: int| p <= i < v.len() ==> text_le(x.0, (#[trigger] v[i]).0),
    ensures
        is_sorted(v.insert(p, x)),
        forall|name: Seq<char>| #[trigger]
            named(v.insert(p, x), name) == named(seq![x], name) + named(v, name),
{
    let out = v.insert(p, x);
    assert forall|i: int, j: int| 0 <= i < j < out.len() implies text_le(
        (#[trigger] out[i]).0,
        (#[trigger] out[j]).0,
    ) by {
        let a = if i < p {
            v[i]
        } else if i == p {
            x
        } else {
            v[i - 1]
        };
        let b = if j < p {
            v[j]
        } else if j == p {
            x
        } else {
            v[j - 1]
        };
        assert(out[i] == a && out[j] == b);
        if j == p {
            lemma_bytes_total(encode_utf8(a.0), encode_utf8(b.0));
        }
    }
    assert forall|name: Seq<char>| #[trigger]
        named(out, name) == named(seq![x], name) + named(v, name) by {
        let front = v.take(p);
        let back = v.skip(p);
        assert(v =~= front + back);
        assert(out =~= front + (seq![x] + back));
        lemma_named_join(front, back, name);
        lemma_named_join(seq![x], back, name);
        lemma_named_join(front, seq![x] + back, name);
        if name == x.0 {
            lemma_bytes_total(encode_utf8(x.0), encode_utf8(x.0));
            assert forall|i: int| 0 <= i < front.len() implies (#[trigger] front[i]).0 != name by {
                assert(!text_le(x.0, v[i].0));
            }
            lemma_named_none(front, name);
            assert(named(out, name) =~= named(seq![x], name) + named(v, name));
        } else {
            lemma_named_one(x, name);
            assert(named(out, name) =~= named(seq![x], name) + named(v, name));
        }
    }
}

/// The first place in a sorted list whose name does not come before `name`.
fn place_for<T>(v: &Vec<(String, T)>, name: &str) -> (p: usize)
    requires
        is_sorted(pairs(v@)),
    ensures
        p <= v.len(),
        forall|i: int| 0 <= i < p ==> !text_le(name@, (#[trigger] pairs(v@)[i]).0),
        forall|i: int| p <= i < v.len() ==> text_le(name@, (#[trigger] pairs(v@)[i]).0),
{
    let ghost all = pairs(v@);
    let mut lo: usize = 0;
    let mut hi: usize = v.len();
    while lo < hi
        invariant
            lo <= hi <= v.len(),
            all == pairs(v@),
            is_sorted(all),
            forall|i: int| 0 <= i < lo ==> !text_le(name@, (#[trigger] all[i]).0),
            forall|i: int| hi <= i < v.len() ==> text_le(name@, (#[trigger] all[i]).0),
        decreases hi - lo,
    {
        let mid: usize = lo + (hi - lo) / 2;
        assert(all[mid as int].0 == v@[mid as int].0@);
        if in_text_order(name, v[mid].0.as_str()) {
            assert forall|i: int| mid <= i < v.len() implies text_le(
                name@,
                (#[trigger] all[i]).0,
            ) by {
                if i > mid {
                    lemma_bytes_transitive(
                        encode_utf8(name@),
                        encode_utf8(all[mid as int].0),
                        encode_utf8(all[i].0),
                    );
                }
            }
            hi = mid;
        } else {
            assert forall|i: int| 0 <= i <= mid implies !text_le(
                name@,
                (#[trigger] all[i]).0,
            ) by {
                if i < mid && text_le(name@, all[i].0) {
                    lemma_bytes_transitive(
                        encode_utf8(name@),
                        encode_utf8(all[i].0),
                        encode_utf8(all[mid as int].0),
                    );
                }
            }
            lo = mid + 1;
        }
    }
    lo
}

/// Puts a list into the order of its names.
pub fn sort_by_name<T>(v: Vec<(String, T)>) -> (out: Vec<(String, T)>)
    ensures
        sorts(pairs(v@), pairs(out@)),
{
    let ghost all = pairs(v@);
    let mut rest = v;
    let mut out: Vec<(String, T)> = Vec::new();
    assert(pairs(out@) =~= Seq::<(Seq<char>, T)>::empty());
    assert forall|name: Seq<char>| #[trigger] named(all, name) == named(pairs(rest@), name) + named(
        pairs(out@),
        name,
    ) by {
        assert(named(all, name) + named(pairs(out@), name) =~= named(all, name));
    }
    while rest.len() > 0
        invariant
            rest@.len() + out@.len() == all.len(),
            is_sorted(pairs(out@)),
            forall|name: Seq<char>| #[trigger]
                named(all, name) == named(pairs(rest@), name) + named(pairs(out@), name),
        decreases rest.len(),
    {
        let ghost left = rest@;
        let ghost done = out@;
        match rest.pop() {
            Some(x) => {
                let ghost item = (x.0@, x.1);
                assert(pairs(left) =~= pairs(rest@).push(item));
                let p = place_for(&out, x.0.as_str());
                out.insert(p, x);
                assert(pairs(out@) =~= pairs(done).insert(p as int, item));
                proof {
                    lemma_insert(pairs(done), p as int, item);
                    assert forall|name: Seq<char>| #[trigger]
                        named(all, name) == named(pairs(rest@), name) + named(
                            pairs(out@),
                            name,
                        ) by {
                        assert(pairs(left).drop_last() =~= pairs(rest@));
                        lemma_named_one(item, name);
                        assert(named(pairs(left), name) =~= named(pairs(rest@), name) + named(
                            seq![item],
                            name,
                        ));
                        assert(named(all, name) =~= named(pairs(rest@), name) + named(
                            pairs(out@),
                            name,
                        ));
                    }
                }
            },
            None => {},
        }
    }
    assert(pairs(rest@) =~= Seq::<(Seq<char>, T)>::empty());
    assert forall|name: Seq<char>| #[trigger] named(pairs(out@), name) == named(all, name) by {
        assert(named(all, name) =~= named(pairs(rest@), name) + named(pairs(out@), name));
        assert(named(pairs(rest@), name) + named(pairs(out@), name) =~= named(pairs(out@), name));
    }
    out
}

/// How an entry of a directory is shown.
#[derive(Debug, PartialEq, Eq, Structural)]
pub enum EntryKind {
    Skipped,
    Dir,
    Log,
}

/// Hidden entries are not shown, and of the files and of the links whose target is
/// missing only the logs.
pub open spec fn kind_of(
    name: Seq<char>,
    is_dir: bool,
    is_file: bool,
    is_broken_link: bool,
) -> EntryKind {
    if name.len() > 0 && name[0] == '.' {
        EntryKind::Skipped
    } else if is_dir {
        EntryKind::Dir
    } else if (is_file || is_broken_link) && is_log_name(name) {
        EntryKind::Log
    } else {
        EntryKind::Skipped
    }
}

/// How an entry of a directory is shown.
pub fn classify(name: &str, is_dir: bool, is_file: bool, is_broken_link: bool) -> (kind: EntryKind)
    ensures
        kind == kind_of(name@, is_dir, is_file, is_broken_link),
{
    let cs = chars_of(name);
    if cs.len() > 0 && cs[0] == '.' {
        EntryKind::Skipped
    } else if is_dir {
        EntryKind::Dir
    } else if (is_file || is_broken_link) && names_log(name) {
        EntryKind::Log
    } else {
        EntryKind::Skipped
    }
}

/// What is shown of a log beside its name: its size, when it was changed, and
/// where it leads if it is a link.
#[derive(Debug)]
pub struct Facts {
    pub size: u64,
    pub modified_at: u64,
    pub target: Option<String>,
}

impl Clone for Facts {
    /// The same facts.
    fn clone(&self) -> (f: Facts)
        ensures
            f == *self,
    {
        let target = match &self.target {
            Some(t) => Some(t.clone()),
            None => None,
        };
        Facts { size: self.size, modified_at: self.modified_at, target }
    }
}

/// Where a link in the directory `dir` leads: a relative target is meant from there.
pub open spec fn target_of(dir: Seq<char>, target: Seq<char>) -> Seq<char> {
    if is_absolute(target) {
        target
    } else {
        join_path(dir, target)
    }
}

/// Where a link in the directory `dir` leads, as an absolute path where that of the
/// directory is one.
pub fn link_target(dir: &str, target: &str) -> (path: String)
    ensures
        path@ == target_of(dir@, target@),
        is_absolute(dir@) ==> is_absolute(path@),
{
    if starts_absolute(target) {
        target.to_owned()
    } else {
        path_below(dir, target)
    }
}

/// An entry of a directory as it was read: whether it is a directory or a file, or
/// leads to one, and whether it is a link whose target is missing.
#[derive(Debug)]
pub struct Item {
    pub name: String,
    pub is_dir: bool,
    pub is_file: bool,
    pub is_broken_link: bool,
    pub facts: Facts,
}

impl Item {
    /// How the entry is shown.
    pub open spec fn kind(self) -> EntryKind {
        kind_of(self.name@, self.is_dir, self.is_file, self.is_broken_link)
    }

    /// What is shown of the entry: a link whose target is missing has neither size
    /// nor time.
    pub open spec fn shown(self) -> Facts {
        if self.is_broken_link {
            Facts { size: 0, modified_at: 0, target: self.facts.target }
        } else {
            self.facts
        }
    }

    /// What is shown of the entry.
    pub fn show(&self) -> (f: Facts)
        ensures
            f == self.shown(),
    {
        let facts = self.facts.clone();
        if self.is_broken_link {
            Facts { size: 0, modified_at: 0, target: facts.target }
        } else {
            facts
        }
    }
}

/// Names without anything beside them.
pub open spec fn bare(names: Seq<Seq<char>>) -> Seq<(Seq<char>, ())> {
    names.map_values(|n: Seq<char>| (n, ()))
}

/// The names of the subdirectories that are shown.
pub open spec fn dirs_among(items: Seq<Item>) -> Seq<Seq<char>>
    decreases items.len(),
{
    if items.len() == 0 {
        seq![]
    } else {
        let front = dirs_among(items.drop_last());
        if items.last().kind() == EntryKind::Dir {
            front.push(items.last().name@)
        } else {
            front
        }
    }
}

/// The logs that are shown, each with the name under which a request asks for it.
pub open spec fn logs_in(dir: Seq<char>, items: Seq<Item>) -> Seq<(Seq<char>, Facts)>
    decreases items.len(),
{
    if items.len() == 0 {
        seq![]
    } else {
        let front = logs_in(dir, items.drop_last());
        if items.last().kind() == EntryKind::Log {
            front.push((dir + "/"@ + items.last().name@, items.last().shown()))
        } else {
            front
        }
    }
}

/// What a directory shows.
#[derive(Debug)]
pub struct Listing {
    pub dir: String,
    pub dirs: Vec<String>,
    pub entries: Vec<(String, Facts)>,
}

/// Puts names into order.
pub fn sort_names(names: Vec<String>) -> (out: Vec<String>)
    ensures
        sorts(bare(texts(names@)), bare(texts(out@))),
{
    let ghost all = bare(texts(names@));
    let mut list: Vec<(String, ())> = Vec::new();
    let mut k: usize = 0;
    assert(pairs(list@) =~= all.take(0));
    while k < names.len()
        invariant
            k <= names.len(),
            all == bare(texts(names@)),
            pairs(list@) == all.take(k as int),
        decreases names.len() - k,
    {
        let name = names[k].clone();
        let ghost before = list@;
        list.push((name, ()));
        assert(pairs(before.push((name, ()))) =~= pairs(before).push((name@, ())));
        assert(all.take(k + 1) =~= all.take(k as int).push((name@, ())));
        k += 1;
    }
    assert(all.take(k as int) =~= all);
    let sorted = sort_by_name(list);
    let ghost wanted = pairs(sorted@);
    let mut out: Vec<String> = Vec::new();
    let mut j: usize = 0;
    assert(bare(texts(out@)) =~= wanted.take(0));
    while j < sorted.len()
        invariant
            j <= sorted.len(),
            wanted == pairs(sorted@),
            bare(texts(out@)) == wanted.take(j as int),
        decreases sorted.len() - j,
    {
        let name = sorted[j].0.clone();
        let ghost before = out@;
        out.push(name);
        assert(bare(texts(before.push(name))) =~= bare(texts(before)).push((name@, ())));
        assert(wanted.take(j + 1) =~= wanted.take(j as int).push((name@, ())));
        j += 1;
    }
    assert(wanted.take(j as int) =~= wanted);
    out
}

/// The short names of the roots of a session.
pub open spec fn root_names(dirs: Seq<Seq<char>>) -> Seq<Seq<char>> {
    dirs.map_values(|d: Seq<char>| base_name(d))
}

/// What is shown above the roots: their short names, in order.
pub open spec fn lists_roots(listing: Listing, dirs: Seq<Seq<char>>) -> bool {
    &&& listing.dir@ == ""@
    &&& sorts(bare(root_names(dirs)), bare(texts(listing.dirs@)))
    &&& listing.entries@.len() == 0
}

/// What is shown above the roots of a session.
pub fn list_roots(session: &Session) -> (listing: Listing)
    ensures
        lists_roots(listing, session@),
{
    let ghost all = root_names(session@);
    let mut names: Vec<String> = Vec::new();
    let mut k: usize = 0;
    assert(texts(names@) =~= all.take(0));
    while k < session.log_dirs.len()
        invariant
            k <= session.log_dirs.len(),
            all == root_names(session@),
            texts(names@) == all.take(k as int),
        decreases session.log_dirs.len() - k,
    {
        let name = root_name(session.log_dirs[k].as_str());
        let ghost before = names@;
        names.push(name);
        assert(texts(before.push(name)) =~= texts(before).push(name@));
        assert(all.take(k + 1) =~= all.take(k as int).push(name@));
        k += 1;
    }
    assert(all.take(k as int) =~= all);
    Listing { dir: "".to_owned(), dirs: sort_names(names), entries: Vec::new() }
}

/// What the directory `dir` shows of its entries.
pub fn list_dir(dir: &str, items: &Vec<Item>) -> (listing: Listing)
    ensures
        listing.dir@ == dir@,
        sorts(bare(dirs_among(items@)), bare(texts(listing.dirs@))),
        sorts(logs_in(dir@, items@), pairs(listing.entries@)),
{
    let mut dirs: Vec<String> = Vec::new();
    let mut entries: Vec<(String, Facts)> = Vec::new();
    let mut k: usize = 0;
    assert(texts(dirs@) =~= dirs_among(items@.take(0)));
    assert(pairs(entries@) =~= logs_in(dir@, items@.take(0)));
    while k < items.len()
        invariant
            k <= items.len(),
            texts(dirs@) == dirs_among(items@.take(k as int)),
            pairs(entries@) == logs_in(dir@, items@.take(k as int)),
        decreases items.len() - k,
    {
        let item = &items[k];
        assert(items@.take(k + 1).drop_last() =~= items@.take(k as int));
        assert(items@.take(k + 1).last() == *item);
        match classify(
            item.name.as_str(),
            item.is_dir,
            item.is_file,
            item.is_broken_link,
        ) {
            EntryKind::Dir => {
                let name = item.name.clone();
                let ghost before = dirs@;
                dirs.push(name);
                assert(texts(before.push(name)) =~= texts(before).push(name@));
            },
            EntryKind::Log => {
                let mut name = dir.to_owned();
                name.append("/");
                name.append(item.name.as_str());
                let entry = (name, item.show());
                let ghost before = entries@;
                entries.push(entry);
                assert(pairs(before.push(entry)) =~= pairs(before).push((entry.0@, entry.1)));
            },
            EntryKind::Skipped => {},
        }
        k += 1;
    }
    assert(items@.take(k as int) =~= items@);
    Listing {
        dir: dir.to_owned(),
        dirs: sort_names(dirs),
        entries: sort_by_name(entries),
    }
}

/// The order of texts is one: what comes before each other is the same.
proof fn lemma_text_order(a: Seq<char>, b: Seq<char>)
    requires
        text_le(a, b),
        text_le(b, a),
    ensures
        a == b,
{
    lemma_bytes_same(encode_utf8(a), encode_utf8(b));
    vstd::utf8::encode_utf8_decode_utf8(a);
    vstd::utf8::encode_utf8_decode_utf8(b);
}

proof fn lemma_bytes_same(a: Seq<u8>, b: Seq<u8>)
    requires
        bytes_le(a, b),
        bytes_le(b, a),
    ensures
        a == b,
    decreases a.len(),
{
    if a.len() > 0 && b.len() > 0 {
        lemma_bytes_same(a.drop_first(), b.drop_first());
        assert(a =~= seq![a[0]] + a.drop_first());
        assert(b =~= seq![b[0]] + b.drop_first());
    } else {
        assert(a =~= b);
    }
}

/// A name with something in the list stands in it.
proof fn lemma_named_some<T>(v: Seq<(Seq<char>, T)>, name: Seq<char>) -> (i: int)
    requires
        named(v, name).len() > 0,
    ensures
        0 <= i < v.len(),
        v[i].0 == name,
    decreases v.len(),
{
    if v.last().0 == name {
        v.len() - 1
    } else {
        lemma_named_some(v.drop_last(), name)
    }
}

/// There is one way to put a list into the order of its names.
pub proof fn law_one_order<T>(
    v: Seq<(Seq<char>, T)>,
    a: Seq<(Seq<char>, T)>,
    b: Seq<(Seq<char>, T)>,
)
    requires
        sorts(v, a),
        sorts(v, b),
    ensures
        a == b,
{
    lemma_one_order(a, b);
}

proof fn lemma_one_order<T>(a: Seq<(Seq<char>, T)>, b: Seq<(Seq<char>, T)>)
    requires
        a.len() == b.len(),
        is_sorted(a),
        is_sorted(b),
        forall|name: Seq<char>| #[trigger] named(a, name) == named(b, name),
    ensures
        a == b,
    decreases a.len(),
{
    if a.len() == 0 {
        assert(a =~= b);
    } else {
        let x = a.last();
        let y = b.last();
        assert(named(a, x.0).len() > 0);
        assert(named(b, y.0).len() > 0);
        assert(named(a, y.0) == named(b, y.0));
        let i = lemma_named_some(b, x.0);
        let j = lemma_named_some(a, y.0);
        lemma_bytes_total(encode_utf8(x.0), encode_utf8(x.0));
        lemma_bytes_total(encode_utf8(y.0), encode_utf8(y.0));
        assert(text_le(b[i].0, y.0));
        assert(text_le(a[j].0, x.0));
        lemma_text_order(x.0, y.0);
        assert(named(a, x.0).last() == x.1);
        assert(named(b, x.0).last() == y.1);
        assert forall|name: Seq<char>| #[trigger]
            named(a.drop_last(), name) == named(b.drop_last(), name) by {
            assert(named(a, name) == named(b, name));
            if name == x.0 {
                assert(named(a, name).drop_last() =~= named(a.drop_last(), name));
                assert(named(b, name).drop_last() =~= named(b.drop_last(), name));
            }
        }
        lemma_one_order(a.drop_last(), b.drop_last());
        assert(a =~= a.drop_last().push(x));
        assert(b =~= b.drop_last().push(y));
    }
}

/// A link with the name of a log whose target is missing is listed, with size and
/// time zero, and the other entries are listed as without it.
pub proof fn law_broken_link(dir: Seq<char>, items: Seq<Item>, link: Item)
    requires
        link.is_broken_link,
        !link.is_dir,
        is_log_name(link.name@),
        link.name@[0] != '.',
    ensures
        dirs_among(items.push(link)) == dirs_among(items),
        logs_in(dir, items.push(link)) == logs_in(dir, items).push(
            (
                dir + "/"@ + link.name@,
                Facts { size: 0, modified_at: 0, target: link.facts.target },
            ),
        ),
{
    assert(items.push(link).drop_last() =~= items);
}

proof fn lemma_trimmed_ends(s: Seq<char>)
    requires
        s.len() > 0,
    ensures
        trimmed(s) == s <==> !is_white(s[0]) && !is_white(s.last()),
{
    lemma_trim_front(s);
    lemma_trim_back(trim_front(s));
    if trimmed(s) == s {
        assert(trim_front(s) == s);
    }
}

proof fn lemma_trim_front(s: Seq<char>)
    ensures
        trim_front(s).len() <= s.len(),
        s.len() > 0 && is_white(s[0]) ==> trim_front(s).len() < s.len(),
        trim_front(s).len() == s.len() ==> trim_front(s) == s,
    decreases s.len(),
{
    if s.len() > 0 && is_white(s[0]) {
        lemma_trim_front(s.drop_first());
    }
}

proof fn lemma_trim_back(s: Seq<char>)
    ensures
        trim_back(s).len() <= s.len(),
        s.len() > 0 && is_white(s.last()) ==> trim_back(s).len() < s.len(),
        trim_back(s).len() == s.len() ==> trim_back(s) == s,
    decreases s.len(),
{
    if s.len() > 0 && is_white(s.last()) {
        lemma_trim_back(s.drop_last());
    }
}

proof fn lemma_first_part_of(dir: Seq<char>, rest: Seq<char>)
    ensures
        first_part(dir + "/"@ + rest) == first_part(dir),
        first_part(dir).len() <= dir.len(),
    decreases dir.len(),
{
    reveal_strlit("/");
    let s = dir + "/"@ + rest;
    if dir.len() == 0 {
        assert(s[0] == '/');
    } else {
        assert(s[0] == dir[0]);
        if dir[0] != '/' {
            lemma_first_part_of(dir.drop_first(), rest);
            assert(s.drop_first() =~= dir.drop_first() + "/"@ + rest);
        }
    }
}

/// What is stripped in front of a text is stripped in front of a longer one.
proof fn lemma_strip_longer(a: Seq<char>, name: Seq<char>)
    requires
        name.len() > 0,
        name[0] != '/',
    ensures
        strip_front(a + "/"@ + name, '/') == if strip_front(a, '/').len() == 0 {
            name
        } else {
            strip_front(a, '/') + "/"@ + name
        },
    decreases a.len(),
{
    reveal_strlit("/");
    let s = a + "/"@ + name;
    if a.len() == 0 {
        assert(s[0] == '/');
        assert(s.drop_first() =~= name);
        assert(strip_front(name, '/') == name);
    } else if a[0] == '/' {
        assert(s[0] == '/');
        assert(s.drop_first() =~= a.drop_first() + "/"@ + name);
        lemma_strip_longer(a.drop_first(), name);
    } else {
        assert(s[0] == a[0]);
    }
}

/// A text without a slash that stands in a path stands in one of the parts around
/// a slash.
proof fn lemma_stands_on_one_side(a: Seq<char>, b: Seq<char>, needle: Seq<char>)
    requires
        contains_text(a + "/"@ + b, needle),
        forall|k: int| 0 <= k < needle.len() ==> #[trigger] needle[k] != '/',
        needle.len() > 0,
    ensures
        contains_text(a, needle) || contains_text(b, needle),
{
    reveal_strlit("/");
    let s = a + "/"@ + b;
    let at = choose|at: int| occurs_at(s, needle, at);
    let sub = s.subrange(at, at + needle.len());
    let n = a.len() as int;
    assert(s[n] == '/');
    if at <= n < at + needle.len() {
        assert(sub[n - at] == '/');
        assert(needle[n - at] != '/');
    }
    if at > n {
        assert(b.subrange(at - n - 1, at - n - 1 + needle.len()) =~= sub);
        assert(occurs_at(b, needle, at - n - 1));
    } else {
        assert(a.subrange(at, at + needle.len()) =~= sub);
        assert(occurs_at(a, needle, at));
    }
}

/// The name of a log in the listing of a directory leads to that log: it is found
/// below the same root as the directory. This is not so for a log whose name has
/// two dots in a row, a backslash or white space at its end.
pub proof fn law_listed_log_is_found(dirs: Seq<Seq<char>>, dir: Seq<char>, name: Seq<char>)
    requires
        joined(dirs, dir) is Ok,
        trimmed(dir) == dir,
        name.len() > 0,
        name[0] != '/',
        !contains_text(name, ".."@),
        !contains_text(name, "\\"@),
        !is_white(name.last()),
    ensures
        ({
            let d = joined(dirs, dir)->Ok_0;
            let sub = below_root(dir);
            let r = joined(dirs, dir + "/"@ + name);
            &&& r is Ok
            &&& r->Ok_0.base == d.base
            &&& r->Ok_0.path == join_path(
                d.base,
                if sub.len() == 0 {
                    name
                } else {
                    sub + "/"@ + name
                },
            )
        }),
{
    reveal_strlit("/");
    reveal_strlit("..");
    reveal_strlit("\\");
    let file = dir + "/"@ + name;
    lemma_trimmed_ends(dir);
    assert(file[0] == dir[0]);
    assert(file.last() == name.last());
    lemma_trimmed_ends(file);
    assert(!is_refused(dir));
    if contains_text(file, ".."@) {
        lemma_stands_on_one_side(dir, name, ".."@);
    }
    if contains_text(file, "\\"@) {
        lemma_stands_on_one_side(dir, name, "\\"@);
    }
    lemma_first_part_of(dir, name);
    let n = first_part(dir).len() as int;
    assert(file.skip(n) =~= dir.skip(n) + "/"@ + name);
    lemma_strip_longer(dir.skip(n), name);
}

} // verus!
