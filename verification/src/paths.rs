//! Paths below the roots: a request names a file by the short name of its root
//! and the way from there, and must not lead out of that root.

use vstd::prelude::*;

use crate::fault::{failed, invalid, Fault, FaultModel};
use crate::roots::{base_name, first_repeated, law_names_differ, root_name};
use crate::text::{
    chars_of, contains_text, has_text, occurs_at, read_lossy, same_text, strip_front, bytes_text,
    text_of, texts, trim, trimmed,
};

verus! {

/// What a connection knows: its root directories.
#[derive(Debug)]
pub struct Session {
    pub log_dirs: Vec<String>,
}

impl View for Session {
    type V = Seq<Seq<char>>;

    open spec fn view(&self) -> Seq<Seq<char>> {
        texts(self.log_dirs@)
    }
}

/// A path that is refused as it is written: an empty or an absolute one, one
/// with a backslash, and one that goes up.
pub open spec fn is_refused(file: Seq<char>) -> bool {
    file.len() == 0 || file[0] == '/' || contains_text(file, "\\"@) || contains_text(file, ".."@)
}

/// The part of a path before its first slash.
pub open spec fn first_part(file: Seq<char>) -> Seq<char>
    decreases file.len(),
{
    if file.len() == 0 || file[0] == '/' {
        seq![]
    } else {
        seq![file[0]] + first_part(file.drop_first())
    }
}

/// The first of `dirs` from position `k` on with the short name `name`.
pub open spec fn root_named(dirs: Seq<Seq<char>>, name: Seq<char>, k: int) -> Option<Seq<char>>
    decreases dirs.len() - k,
{
    if k < 0 || k >= dirs.len() {
        None
    } else if base_name(dirs[k]) == name {
        Some(dirs[k])
    } else {
        root_named(dirs, name, k + 1)
    }
}

/// The path of `sub` below `base`.
pub open spec fn join_path(base: Seq<char>, sub: Seq<char>) -> Seq<char> {
    if base.len() == 0 || base.last() == '/' {
        base + sub
    } else {
        base + seq!['/'] + sub
    }
}

/// A path below a root that is yet to be looked up: the path as it was asked
/// for, the root, and the path in the file system.
#[derive(Debug)]
pub struct Joined {
    pub file: String,
    pub base: String,
    pub path: String,
}

/// A path below a root as a value.
pub struct JoinedModel {
    pub file: Seq<char>,
    pub base: Seq<char>,
    pub path: Seq<char>,
}

impl View for Joined {
    type V = JoinedModel;

    open spec fn view(&self) -> JoinedModel {
        JoinedModel { file: self.file@, base: self.base@, path: self.path@ }
    }
}

/// The way from the root that `file` names to the file.
pub open spec fn below_root(file: Seq<char>) -> Seq<char> {
    strip_front(file.skip(first_part(file).len() as int), '/')
}

/// Where `rel` leads among the roots `dirs`, or why it is refused.
pub open spec fn joined(dirs: Seq<Seq<char>>, rel: Seq<char>) -> Result<JoinedModel, FaultModel> {
    let file = trimmed(rel);
    if is_refused(file) {
        Err(invalid("非法文件名"@))
    } else {
        match root_named(dirs, first_part(file), 0) {
            None => Err(invalid("非法文件名"@)),
            Some(base) => Ok(
                JoinedModel { file, base, path: join_path(base, below_root(file)) },
            ),
        }
    }
}

fn refuses(cs: &[char]) -> (yes: bool)
    ensures
        yes == is_refused(cs@),
{
    cs.len() == 0 || cs[0] == '/' || has_text(cs, chars_of("\\").as_slice()) || has_text(
        cs,
        chars_of("..").as_slice(),
    )
}

/// The length of the part of a path before its first slash.
fn first_part_len(cs: &[char]) -> (n: usize)
    ensures
        n <= cs.len(),
        first_part(cs@) == cs@.take(n as int),
{
    let mut n: usize = 0;
    assert(cs@.take(0) + first_part(cs@.skip(0)) =~= first_part(cs@)) by {
        assert(cs@.skip(0) == cs@);
    }
    while n < cs.len() && cs[n] != '/'
        invariant
            n <= cs.len(),
            first_part(cs@) == cs@.take(n as int) + first_part(cs@.skip(n as int)),
        decreases cs.len() - n,
    {
        assert(cs@.skip(n as int).drop_first() == cs@.skip(n + 1));
        assert(cs@.take(n as int) + (seq![cs@[n as int]] + first_part(cs@.skip(n + 1)))
            =~= cs@.take(n + 1) + first_part(cs@.skip(n + 1)));
        n += 1;
    }
    assert(cs@.take(n as int) + Seq::<char>::empty() =~= cs@.take(n as int));
    n
}

/// `cs` from `from` on, without the slashes at its front.
fn without_front_slashes(cs: &[char], from: usize) -> (out: String)
    requires
        from <= cs.len(),
    ensures
        out@ == strip_front(cs@.skip(from as int), '/'),
{
    let mut a: usize = from;
    while a < cs.len() && cs[a] == '/'
        invariant
            from <= a <= cs.len(),
            strip_front(cs@.skip(from as int), '/') == strip_front(cs@.skip(a as int), '/'),
        decreases cs.len() - a,
    {
        assert(cs@.skip(a as int).drop_first() == cs@.skip(a + 1));
        a += 1;
    }
    assert(cs@.subrange(a as int, cs@.len() as int) == cs@.skip(a as int));
    text_of(vstd::slice::slice_subrange(cs, a, cs.len()))
}

/// The path of `sub` below `base`.
pub fn path_below(base: &str, sub: &str) -> (path: String)
    ensures
        path@ == join_path(base@, sub@),
{
    let bs = chars_of(base);
    let mut path = base.to_owned();
    if bs.len() > 0 && bs[bs.len() - 1] != '/' {
        path.push('/');
    }
    path.append(sub);
    assert(base@.push('/') + sub@ =~= base@ + seq!['/'] + sub@);
    path
}

/// Where `rel` leads among the roots of the session. The first part of `rel` is
/// the short name of a root.
pub fn safe_join(session: &Session, rel: &str) -> (r: Result<Joined, Fault>)
    ensures
        match (r, joined(session@, rel@)) {
            (Ok(j), Ok(m)) => j@ == m,
            (Err(f), Err(m)) => f@ == m,
            _ => false,
        },
{
    let file = trim(rel);
    let cs = chars_of(file.as_str());
    if refuses(cs.as_slice()) {
        return Err(Fault::invalid("非法文件名"));
    }
    let n = first_part_len(cs.as_slice());
    let name = text_of(vstd::slice::slice_subrange(cs.as_slice(), 0, n));
    let ghost dirs = session@;
    let mut k: usize = 0;
    while k < session.log_dirs.len()
        invariant
            k <= session.log_dirs.len(),
            dirs == session@,
            file@ == trimmed(rel@),
            cs@ == file@,
            !is_refused(file@),
            n <= cs.len(),
            first_part(file@) == file@.take(n as int),
            name@ == first_part(file@),
            root_named(dirs, name@, 0) == root_named(dirs, name@, k as int),
        decreases session.log_dirs.len() - k,
    {
        let base = session.log_dirs[k].as_str();
        if same_text(root_name(base).as_str(), name.as_str()) {
            let sub = without_front_slashes(cs.as_slice(), n);
            let path = path_below(base, sub.as_str());
            return Ok(Joined { file, base: base.to_owned(), path });
        }
        k += 1;
    }
    Err(Fault::invalid("非法文件名"))
}

/// The canonical path `path` is `base` or lies below it. Canonical paths are
/// absolute and have no empty parts.
pub open spec fn lies_within(base: Seq<u8>, path: Seq<u8>) -> bool {
    ||| path == base
    ||| base == seq!['/' as u8] && path.len() > 0 && path[0] == '/' as u8
    ||| base.len() < path.len() && path.take(base.len() as int) == base && path[base.len() as int]
        == '/' as u8
}

/// Whether the canonical path `path` is `base` or lies below it.
pub fn is_within(base: &[u8], path: &[u8]) -> (yes: bool)
    ensures
        yes == lies_within(base@, path@),
{
    if base.len() == 1 && base[0] == '/' as u8 {
        assert(base@ =~= seq!['/' as u8]);
        if path.len() > 0 && path[0] == '/' as u8 {
            return true;
        }
    }
    if base.len() > path.len() {
        return false;
    }
    let mut k: usize = 0;
    while k < base.len()
        invariant
            k <= base.len() <= path.len(),
            forall|m: int| 0 <= m < k ==> base@[m] == path@[m],
        decreases base.len() - k,
    {
        if base[k] != path[k] {
            assert(path@.take(base@.len() as int)[k as int] != base@[k as int]);
            return false;
        }
        k += 1;
    }
    assert(path@.take(base@.len() as int) =~= base@);
    if base.len() == path.len() {
        assert(path@ =~= base@);
        return true;
    }
    path[base.len()] == '/' as u8
}

/// A lookup as a value: the bytes of the canonical path, or the message of the
/// error.
pub open spec fn lookup_of(found: Result<Vec<u8>, String>) -> Result<Seq<u8>, Seq<char>> {
    match found {
        Ok(path) => Ok(path@),
        Err(e) => Err(e@),
    }
}

/// Why a path below a root is refused once the root and the path have been
/// looked up in the file system, if it is.
pub open spec fn refusal(
    plan: JoinedModel,
    base: Result<Seq<u8>, Seq<char>>,
    path: Result<Seq<u8>, Seq<char>>,
) -> Option<FaultModel> {
    match base {
        Err(e) => Some(failed("无法读取目录 "@ + plan.base + "："@ + e)),
        Ok(b) => match path {
            Err(e) => Some(failed("路径不存在 "@ + plan.file + "："@ + e)),
            Ok(p) => if lies_within(b, p) {
                None
            } else {
                Some(invalid("非法文件名"@))
            },
        },
    }
}

/// The message `head`, `subject`, a colon and `detail`.
pub fn message_about(head: &str, subject: &str, detail: &str) -> (message: String)
    ensures
        message@ == head@ + subject@ + "："@ + detail@,
{
    let mut message = head.to_owned();
    message.append(subject);
    message.append("：");
    message.append(detail);
    message
}

/// Decides on a path below a root once the root and the path have been looked
/// up in the file system: links must not lead out of the root.
pub fn confine(plan: &Joined, base: &Result<Vec<u8>, String>, path: &Result<Vec<u8>, String>) -> (r:
    Result<(), Fault>)
    ensures
        match (r, refusal(plan@, lookup_of(*base), lookup_of(*path))) {
            (Ok(_), None) => true,
            (Err(f), Some(m)) => f@ == m,
            _ => false,
        },
{
    let base = match base {
        Ok(base) => base,
        Err(e) => {
            return Err(
                Fault::failed(
                    message_about("无法读取目录 ", plan.base.as_str(), e.as_str()).as_str(),
                ),
            );
        },
    };
    let path = match path {
        Ok(path) => path,
        Err(e) => {
            return Err(
                Fault::failed(
                    message_about("路径不存在 ", plan.file.as_str(), e.as_str()).as_str(),
                ),
            );
        },
    };
    if is_within(base.as_slice(), path.as_slice()) {
        Ok(())
    } else {
        Err(Fault::invalid("非法文件名"))
    }
}

/// The path of a file in the file system, once its root and the file have been
/// looked up there.
pub fn settle_join(plan: &Joined, base: Result<Vec<u8>, String>, path: Result<Vec<u8>, String>) -> (r:
    Result<String, Fault>)
    ensures
        match refusal(plan@, lookup_of(base), lookup_of(path)) {
            None => r is Ok && r->Ok_0@ == bytes_text(path->Ok_0@),
            Some(m) => r is Err && r->Err_0@ == m,
        },
{
    match confine(plan, &base, &path) {
        Ok(_) => {},
        Err(f) => {
            return Err(f);
        },
    }
    match path {
        Ok(path) => Ok(read_lossy(path.as_slice())),
        Err(e) => Err(Fault::failed(e.as_str())),
    }
}

/// A path that is accepted as it is written starts with one of the roots, and
/// what follows is a relative path that never goes up.
pub proof fn law_join_starts_at_root(dirs: Seq<Seq<char>>, rel: Seq<char>)
    requires
        joined(dirs, rel) is Ok,
    ensures
        ({
            let j = joined(dirs, rel)->Ok_0;
            let sub = below_root(j.file);
            &&& dirs.contains(j.base)
            &&& base_name(j.base) == first_part(j.file)
            &&& j.path == join_path(j.base, sub)
            &&& sub.len() == 0 || sub[0] != '/'
            &&& !contains_text(sub, ".."@)
            &&& !contains_text(sub, "\\"@)
        }),
{
    let file = trimmed(rel);
    let n = first_part(file).len() as int;
    lemma_first_part(file);
    lemma_root_named(dirs, first_part(file), 0);
    lemma_strip_front(file.skip(n), '/');
    let rest = file.skip(n);
    let sub = strip_front(rest, '/');
    assert(sub == file.skip(file.len() - sub.len()));
    if contains_text(sub, ".."@) {
        lemma_suffix_contains(file, file.len() - sub.len(), ".."@);
    }
    if contains_text(sub, "\\"@) {
        lemma_suffix_contains(file, file.len() - sub.len(), "\\"@);
    }
}

/// What is accepted once it has been looked up lies within its root.
pub proof fn law_confined(
    plan: JoinedModel,
    base: Result<Seq<u8>, Seq<char>>,
    path: Result<Seq<u8>, Seq<char>>,
)
    requires
        refusal(plan, base, path) is None,
    ensures
        base is Ok,
        path is Ok,
        lies_within(base->Ok_0, path->Ok_0),
{
}

/// Where the short names of the roots differ each root is reached by its own, and a
/// path that begins with it leads below that root and no other.
pub proof fn law_roots_apart(dirs: Seq<Seq<char>>, k: int, rel: Seq<char>)
    requires
        first_repeated(dirs, 0) is None,
        0 <= k < dirs.len(),
        !is_refused(trimmed(rel)),
        first_part(trimmed(rel)) == base_name(dirs[k]),
    ensures
        joined(dirs, rel) is Ok,
        joined(dirs, rel)->Ok_0.base == dirs[k],
{
    lemma_root_at(dirs, 0, k);
}

proof fn lemma_root_at(dirs: Seq<Seq<char>>, i: int, k: int)
    requires
        first_repeated(dirs, 0) is None,
        0 <= i <= k < dirs.len(),
    ensures
        root_named(dirs, base_name(dirs[k]), i) == Some(dirs[k]),
    decreases k - i,
{
    if i < k {
        law_names_differ(dirs, i, k);
        lemma_root_at(dirs, i + 1, k);
    }
}

proof fn lemma_first_part(file: Seq<char>)
    ensures
        first_part(file).len() <= file.len(),
    decreases file.len(),
{
    if file.len() > 0 && file[0] != '/' {
        lemma_first_part(file.drop_first());
    }
}

proof fn lemma_root_named(dirs: Seq<Seq<char>>, name: Seq<char>, k: int)
    requires
        0 <= k,
    ensures
        root_named(dirs, name, k) matches Some(d) ==> dirs.contains(d) && base_name(d) == name,
    decreases dirs.len() - k,
{
    if k < dirs.len() && base_name(dirs[k]) != name {
        lemma_root_named(dirs, name, k + 1);
    }
}

proof fn lemma_strip_front(s: Seq<char>, c: char)
    ensures
        ({
            let out = strip_front(s, c);
            &&& out.len() <= s.len()
            &&& out == s.skip(s.len() - out.len())
            &&& out.len() == 0 || out[0] != c
        }),
    decreases s.len(),
{
    if s.len() > 0 && s[0] == c {
        lemma_strip_front(s.drop_first(), c);
        let out = strip_front(s, c);
        assert(s.drop_first().skip(s.len() - 1 - out.len()) =~= s.skip(s.len() - out.len()));
    } else {
        assert(s.skip(0) =~= s);
    }
}

/// What stands in a part of a text stands in the text.
proof fn lemma_suffix_contains(s: Seq<char>, n: int, needle: Seq<char>)
    requires
        0 <= n <= s.len(),
        contains_text(s.skip(n), needle),
    ensures
        contains_text(s, needle),
{
    let at = choose|at: int| occurs_at(s.skip(n), needle, at);
    assert(s.subrange(n + at, n + at + needle.len()) =~= s.skip(n).subrange(
        at,
        at + needle.len(),
    ));
    assert(occurs_at(s, needle, n + at));
}

} // verus!
