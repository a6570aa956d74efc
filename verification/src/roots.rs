//! The directories whose logs are shown.

use vstd::prelude::*;

use crate::fault::{invalid, Fault, FaultModel};
use crate::text::{
    chars_of, same_text, split, split_text, strip_back, strip_back_text, text_of, texts, trim,
    trimmed,
};

verus! {

/// One entry of the list of roots, without white space around it and slashes
/// behind it.
pub open spec fn clean_root(entry: Seq<char>) -> Seq<char> {
    strip_back(trimmed(entry), '/')
}

/// The entries that are left of a list of roots when they are cleaned and the
/// empty ones dropped.
pub open spec fn clean_roots(entries: Seq<Seq<char>>) -> Seq<Seq<char>>
    decreases entries.len(),
{
    if entries.len() == 0 {
        seq![]
    } else {
        let front = clean_roots(entries.drop_last());
        let root = clean_root(entries.last());
        if root.len() == 0 {
            front
        } else {
            front.push(root)
        }
    }
}

/// `path` is written from the top of the file system on.
pub open spec fn is_absolute(path: Seq<char>) -> bool {
    path.len() > 0 && path[0] == '/'
}

/// The first of `dirs` from position `k` on that is not absolute.
pub open spec fn first_relative(dirs: Seq<Seq<char>>, k: int) -> Option<Seq<char>>
    decreases dirs.len() - k,
{
    if k < 0 || k >= dirs.len() {
        None
    } else if !is_absolute(dirs[k]) {
        Some(dirs[k])
    } else {
        first_relative(dirs, k + 1)
    }
}

/// The roots in a list separated by commas, or why the list is refused.
pub open spec fn roots_of(raw: Seq<char>) -> Result<Seq<Seq<char>>, FaultModel> {
    let dirs = clean_roots(split(raw, ','));
    if dirs.len() == 0 {
        Err(invalid("Missing log_dir"@))
    } else {
        match first_relative(dirs, 0) {
            Some(d) => Err(invalid("根目录必须是绝对路径："@ + d)),
            None => Ok(dirs),
        }
    }
}

/// Whether `path` is written from the top of the file system on.
pub fn starts_absolute(path: &str) -> (yes: bool)
    ensures
        yes == is_absolute(path@),
{
    let cs = chars_of(path);
    cs.len() > 0 && cs[0] == '/'
}

/// Reads a list of root directories separated by commas.
pub fn parse_roots(raw: &str) -> (r: Result<Vec<String>, Fault>)
    ensures
        match (r, roots_of(raw@)) {
            (Ok(dirs), Ok(d)) => texts(dirs@) == d,
            (Err(f), Err(m)) => f@ == m,
            _ => false,
        },
{
    let entries = split_text(raw, ',');
    let ghost parts = texts(entries@);
    let mut dirs: Vec<String> = Vec::new();
    let mut k: usize = 0;
    assert(texts(dirs@) =~= clean_roots(parts.take(0)));
    while k < entries.len()
        invariant
            k <= entries.len(),
            parts == texts(entries@),
            texts(dirs@) == clean_roots(parts.take(k as int)),
        decreases entries.len() - k,
    {
        assert(parts.take(k + 1).drop_last() == parts.take(k as int));
        let dir = strip_back_text(trim(entries[k].as_str()).as_str(), '/');
        if !dir.as_str().is_empty() {
            assert(texts(dirs@.push(dir)) =~= texts(dirs@).push(dir@));
            dirs.push(dir);
        }
        k += 1;
    }
    assert(parts.take(k as int) == parts);
    if dirs.len() == 0 {
        return Err(Fault::invalid("Missing log_dir"));
    }
    let mut i: usize = 0;
    while i < dirs.len()
        invariant
            i <= dirs.len(),
            0 < dirs.len(),
            texts(dirs@) == clean_roots(split(raw@, ',')),
            first_relative(texts(dirs@), 0) == first_relative(texts(dirs@), i as int),
        decreases dirs.len() - i,
    {
        if !starts_absolute(dirs[i].as_str()) {
            let mut message = "根目录必须是绝对路径：".to_owned();
            message.append(dirs[i].as_str());
            return Err(Fault::invalid(message.as_str()));
        }
        i += 1;
    }
    Ok(dirs)
}

/// The last part of a path: what stands behind its last slash.
pub open spec fn base_name(path: Seq<char>) -> Seq<char>
    decreases path.len(),
{
    if path.len() > 0 && path.last() != '/' {
        base_name(path.drop_last()).push(path.last())
    } else {
        seq![]
    }
}

/// The short name of a root: the last part of its path.
pub fn root_name(dir: &str) -> (name: String)
    ensures
        name@ == base_name(dir@),
{
    let cs = chars_of(dir);
    let mut a: usize = cs.len();
    assert(cs@.take(a as int) == cs@);
    assert(base_name(cs@.take(a as int)) + cs@.skip(a as int) =~= base_name(cs@));
    while a > 0 && cs[a - 1] != '/'
        invariant
            a <= cs.len(),
            base_name(cs@) == base_name(cs@.take(a as int)) + cs@.skip(a as int),
        decreases a,
    {
        assert(cs@.take(a as int).drop_last() == cs@.take(a - 1));
        assert(base_name(cs@.take(a - 1)).push(cs@[a - 1]) + cs@.skip(a as int) =~= base_name(
            cs@.take(a - 1),
        ) + cs@.skip(a - 1));
        a -= 1;
    }
    assert(base_name(cs@.take(a as int)) =~= seq![]);
    assert(cs@.subrange(a as int, cs@.len() as int) =~= base_name(cs@));
    text_of(vstd::slice::slice_subrange(cs.as_slice(), a, cs.len()))
}

/// The first of `dirs` from position `k` on with the short name of an earlier
/// one.
pub open spec fn first_repeated(dirs: Seq<Seq<char>>, k: int) -> Option<Seq<char>>
    decreases dirs.len() - k,
{
    if k < 0 || k >= dirs.len() {
        None
    } else if exists|j: int| 0 <= j < k && base_name(#[trigger] dirs[j]) == base_name(dirs[k]) {
        Some(base_name(dirs[k]))
    } else {
        first_repeated(dirs, k + 1)
    }
}

/// Why roots cannot be addressed by their short names, if they cannot.
pub open spec fn names_refusal(dirs: Seq<Seq<char>>) -> Option<FaultModel> {
    match first_repeated(dirs, 0) {
        Some(n) => Some(invalid("根目录重名："@ + n)),
        None => None,
    }
}

/// Roots are addressed by their short names, so no two may share one.
pub fn check_names(dirs: &Vec<String>) -> (r: Result<(), Fault>)
    ensures
        match (r, first_repeated(texts(dirs@), 0)) {
            (Ok(_), None) => true,
            (Err(f), Some(n)) => f@ == invalid("根目录重名："@ + n),
            _ => false,
        },
        match (r, names_refusal(texts(dirs@))) {
            (Ok(_), None) => true,
            (Err(f), Some(m)) => f@ == m,
            _ => false,
        },
{
    let ghost ds = texts(dirs@);
    let mut k: usize = 0;
    while k < dirs.len()
        invariant
            k <= dirs.len(),
            ds == texts(dirs@),
            first_repeated(ds, 0) == first_repeated(ds, k as int),
        decreases dirs.len() - k,
    {
        let name = root_name(dirs[k].as_str());
        let mut j: usize = 0;
        while j < k
            invariant
                j <= k < dirs.len(),
                ds == texts(dirs@),
                first_repeated(ds, 0) == first_repeated(ds, k as int),
                name@ == base_name(ds[k as int]),
                forall|m: int| 0 <= m < j ==> base_name(#[trigger] ds[m]) != name@,
            decreases k - j,
        {
            let other = root_name(dirs[j].as_str());
            if same_text(other.as_str(), name.as_str()) {
                assert(base_name(ds[j as int]) == base_name(ds[k as int]));
                let mut message = "根目录重名：".to_owned();
                message.append(name.as_str());
                return Err(Fault::invalid(message.as_str()));
            }
            j += 1;
        }
        k += 1;
    }
    Ok(())
}

/// The roots in a list that is accepted are absolute, and no slash stands behind
/// them.
pub proof fn law_roots(raw: Seq<char>)
    requires
        roots_of(raw) is Ok,
    ensures
        roots_of(raw)->Ok_0.len() > 0,
        forall|k: int|
            0 <= k < roots_of(raw)->Ok_0.len() ==> is_absolute(#[trigger] roots_of(raw)->Ok_0[k])
                && roots_of(raw)->Ok_0[k].last() != '/',
{
    let dirs = clean_roots(split(raw, ','));
    lemma_all_absolute(dirs, 0);
    lemma_roots_clean(split(raw, ','));
}

proof fn lemma_all_absolute(dirs: Seq<Seq<char>>, k: int)
    requires
        0 <= k,
        first_relative(dirs, k) is None,
    ensures
        forall|m: int| k <= m < dirs.len() ==> is_absolute(#[trigger] dirs[m]),
    decreases dirs.len() - k,
{
    if k < dirs.len() {
        lemma_all_absolute(dirs, k + 1);
    }
}

proof fn lemma_roots_clean(entries: Seq<Seq<char>>)
    ensures
        forall|k: int|
            0 <= k < clean_roots(entries).len() ==> (#[trigger] clean_roots(entries)[k]).len() > 0
                && clean_roots(entries)[k].last() != '/',
    decreases entries.len(),
{
    if entries.len() > 0 {
        lemma_roots_clean(entries.drop_last());
        lemma_strip_back(trimmed(entries.last()));
        let front = clean_roots(entries.drop_last());
        let root = clean_root(entries.last());
        assert forall|k: int| 0 <= k < clean_roots(entries).len() implies (
        #[trigger] clean_roots(entries)[k]).len() > 0 && clean_roots(entries)[k].last() != '/' by {
            if k < front.len() {
                assert(clean_roots(entries)[k] == front[k]);
            } else {
                assert(clean_roots(entries)[k] == root);
            }
        }
    }
}

proof fn lemma_strip_back(s: Seq<char>)
    ensures
        strip_back(s, '/').len() > 0 ==> strip_back(s, '/').last() != '/',
    decreases s.len(),
{
    if s.len() > 0 && s.last() == '/' {
        lemma_strip_back(s.drop_last());
    }
}

/// No two roots of an open connection share a short name.
pub proof fn law_names_differ(dirs: Seq<Seq<char>>, i: int, j: int)
    requires
        first_repeated(dirs, 0) is None,
        0 <= i < j < dirs.len(),
    ensures
        base_name(dirs[i]) != base_name(dirs[j]),
{
    lemma_not_repeated(dirs, 0, j);
}

proof fn lemma_not_repeated(dirs: Seq<Seq<char>>, k: int, j: int)
    requires
        0 <= k <= j < dirs.len(),
        first_repeated(dirs, k) is None,
    ensures
        forall|i: int| 0 <= i < j ==> base_name(#[trigger] dirs[i]) != base_name(dirs[j]),
    decreases j - k,
{
    if k < j {
        lemma_not_repeated(dirs, k + 1, j);
    }
}

} // verus!
