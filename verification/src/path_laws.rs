//! Which paths lead where below the roots, and which are refused.

use vstd::prelude::*;

use crate::fault::Fault;
use crate::paths::{
    first_part, is_refused, joined, lies_within, lookup_of, refusal, root_named, Joined, JoinedModel,
    Session,
};
use crate::roots::{
    base_name, clean_roots, first_relative, first_repeated, is_absolute, names_refusal, roots_of,
};
use crate::text::{contains_text, occurs_at, split, strip_back, strip_front, texts, trimmed};
use crate::text_laws::law_split;

verus! {

/// A path is refused as it is written where it is empty, begins with a slash, holds a
/// backslash, or two dots in a row.
pub proof fn law_refused(file: Seq<char>)
    ensures
        is_refused(file) <==> {
            ||| file.len() == 0
            ||| file[0] == '/'
            ||| exists|k: int| 0 <= k < file.len() && #[trigger] file[k] == '\\'
            ||| exists|k: int|
                0 <= k < file.len() - 1 && #[trigger] file[k] == '.' && file[k + 1] == '.'
        },
{
    reveal_strlit("\\");
    reveal_strlit("..");
    if contains_text(file, "\\"@) {
        let at = choose|at: int| occurs_at(file, "\\"@, at);
        assert(file.subrange(at, at + 1)[0] == file[at]);
        assert("\\"@[0] == '\\');
        assert(file[at] == '\\');
    }
    if contains_text(file, ".."@) {
        let at = choose|at: int| occurs_at(file, ".."@, at);
        assert(file.subrange(at, at + 2)[0] == file[at]);
        assert(file.subrange(at, at + 2)[1] == file[at + 1]);
        assert(".."@[0] == '.' && ".."@[1] == '.');
        assert(file[at] == '.' && file[at + 1] == '.');
    }
    if exists|k: int| 0 <= k < file.len() && #[trigger] file[k] == '\\' {
        let k = choose|k: int| 0 <= k < file.len() && #[trigger] file[k] == '\\';
        assert(file.subrange(k, k + 1) =~= "\\"@);
        assert(occurs_at(file, "\\"@, k));
    }
    if exists|k: int| 0 <= k < file.len() - 1 && #[trigger] file[k] == '.' && file[k + 1] == '.' {
        let k = choose|k: int|
            0 <= k < file.len() - 1 && #[trigger] file[k] == '.' && file[k + 1] == '.';
        assert(file.subrange(k, k + 2) =~= ".."@);
        assert(occurs_at(file, ".."@, k));
    }
}

/// A path that is refused as it is written, or that names none of the roots, is an
/// illegal name.
pub proof fn law_illegal_name(dirs: Seq<Seq<char>>, rel: Seq<char>)
    requires
        is_refused(trimmed(rel)) || forall|k: int|
            0 <= k < dirs.len() ==> base_name(#[trigger] dirs[k]) != first_part(trimmed(rel)),
    ensures
        joined(dirs, rel) is Err,
        joined(dirs, rel)->Err_0.code == -32602,
        joined(dirs, rel)->Err_0.message == "非法文件名"@,
{
    if !is_refused(trimmed(rel)) {
        lemma_no_root(dirs, first_part(trimmed(rel)), 0);
    }
}

proof fn lemma_no_root(dirs: Seq<Seq<char>>, name: Seq<char>, k: int)
    requires
        0 <= k,
        forall|m: int| 0 <= m < dirs.len() ==> base_name(#[trigger] dirs[m]) != name,
    ensures
        root_named(dirs, name, k) is None,
    decreases dirs.len() - k,
{
    if k < dirs.len() {
        lemma_no_root(dirs, name, k + 1);
    }
}

/// A path is the short name of a root, slashes and the way from there. It leads to the way
/// below the first root of that name.
pub proof fn law_joined(
    dirs: Seq<Seq<char>>,
    rel: Seq<char>,
    name: Seq<char>,
    slashes: Seq<char>,
    sub: Seq<char>,
    k: int,
)
    requires
        trimmed(rel) == name + slashes + sub,
        !is_refused(trimmed(rel)),
        forall|x: int| 0 <= x < name.len() ==> #[trigger] name[x] != '/',
        forall|x: int| 0 <= x < slashes.len() ==> #[trigger] slashes[x] == '/',
        slashes.len() == 0 ==> sub.len() == 0,
        sub.len() > 0 ==> sub[0] != '/',
        0 <= k < dirs.len(),
        base_name(dirs[k]) == name,
        forall|m: int| 0 <= m < k ==> base_name(#[trigger] dirs[m]) != name,
    ensures
        joined(dirs, rel) is Ok,
        joined(dirs, rel)->Ok_0.file == name + slashes + sub,
        joined(dirs, rel)->Ok_0.base == dirs[k],
        joined(dirs, rel)->Ok_0.path == dirs[k] + seq!['/'] + sub || dirs[k].len() == 0
            || dirs[k].last() == '/',
        dirs[k].len() == 0 || dirs[k].last() == '/' ==> joined(dirs, rel)->Ok_0.path == dirs[k]
            + sub,
{
    let file = name + slashes + sub;
    lemma_first_part(name, slashes + sub);
    assert(name + (slashes + sub) =~= file);
    lemma_root_found(dirs, name, 0, k);
    assert(file.skip(name.len() as int) =~= slashes + sub);
    lemma_slashes(slashes, sub);
}

proof fn lemma_first_part(name: Seq<char>, rest: Seq<char>)
    requires
        forall|x: int| 0 <= x < name.len() ==> #[trigger] name[x] != '/',
        rest.len() > 0 ==> rest[0] == '/',
    ensures
        first_part(name + rest) == name,
    decreases name.len(),
{
    let file = name + rest;
    if name.len() > 0 {
        let tail = name.drop_first();
        assert forall|x: int| 0 <= x < tail.len() implies #[trigger] tail[x] != '/' by {
            assert(tail[x] == name[x + 1]);
        }
        lemma_first_part(tail, rest);
        assert(file[0] == name[0]);
        assert(file.drop_first() =~= tail + rest);
        assert(first_part(file) =~= name);
    } else {
        assert(first_part(file) =~= name);
    }
}

proof fn lemma_root_found(dirs: Seq<Seq<char>>, name: Seq<char>, i: int, k: int)
    requires
        0 <= i <= k < dirs.len(),
        base_name(dirs[k]) == name,
        forall|m: int| 0 <= m < k ==> base_name(#[trigger] dirs[m]) != name,
    ensures
        root_named(dirs, name, i) == Some(dirs[k]),
    decreases k - i,
{
    if i < k {
        lemma_root_found(dirs, name, i + 1, k);
    }
}

proof fn lemma_slashes(slashes: Seq<char>, sub: Seq<char>)
    requires
        forall|x: int| 0 <= x < slashes.len() ==> #[trigger] slashes[x] == '/',
        sub.len() > 0 ==> sub[0] != '/',
    ensures
        strip_front(slashes + sub, '/') == sub,
    decreases slashes.len(),
{
    let s = slashes + sub;
    if slashes.len() > 0 {
        let rest = slashes.drop_first();
        assert forall|x: int| 0 <= x < rest.len() implies #[trigger] rest[x] == '/' by {
            assert(rest[x] == slashes[x + 1]);
        }
        lemma_slashes(rest, sub);
        assert(s[0] == slashes[0]);
        assert(s.drop_first() =~= rest + sub);
    } else {
        assert(s =~= sub);
    }
}

/// The short name of a root is what follows the last slash of its path.
pub proof fn law_base_name(front: Seq<char>, name: Seq<char>)
    requires
        forall|x: int| 0 <= x < name.len() ==> #[trigger] name[x] != '/',
        front.len() > 0 ==> front.last() == '/',
    ensures
        base_name(front + name) == name,
    decreases name.len(),
{
    let path = front + name;
    if name.len() > 0 {
        let rest = name.drop_last();
        assert forall|x: int| 0 <= x < rest.len() implies #[trigger] rest[x] != '/' by {
            assert(rest[x] == name[x]);
        }
        law_base_name(front, rest);
        assert(path.last() == name.last());
        assert(path.drop_last() =~= front + rest);
        assert(base_name(path) =~= name);
    } else {
        assert(path =~= front);
        assert(base_name(path) =~= name);
    }
}

/// A path lies within the root where it is the root, or the root, a slash and a way from
/// there. Every absolute path lies within the top of the file system.
pub proof fn law_within(base: Seq<u8>, path: Seq<u8>, rest: Seq<u8>)
    ensures
        lies_within(base, base),
        lies_within(base, base + seq![47u8] + rest),
        lies_within(seq![47u8], seq![47u8] + rest),
        lies_within(base, path) ==> {
            ||| path == base
            ||| base == seq![47u8] && path.len() > 0 && path[0] == 47
            ||| exists|way: Seq<u8>| path == #[trigger] (base + seq![47u8] + way)
        },
{
    let below = base + seq![47u8] + rest;
    assert(below.take(base.len() as int) =~= base);
    assert(below[base.len() as int] == 47u8);
    if lies_within(base, path) && path != base && !(base == seq![47u8] && path.len() > 0 && path[0]
        == 47) {
        let way = path.skip(base.len() as int + 1);
        assert(path =~= path.take(base.len() as int) + seq![47u8] + way);
        assert(path == base + seq![47u8] + way);
    }
}

/// A path is refused, once it was looked up, where the root or the path cannot be found,
/// or where it is found outside of the root. The root comes first.
pub proof fn law_refusal(
    plan: JoinedModel,
    base: Result<Seq<u8>, Seq<char>>,
    path: Result<Seq<u8>, Seq<char>>,
)
    ensures
        refusal(plan, base, path) is None <==> base is Ok && path is Ok && lies_within(
            base->Ok_0,
            path->Ok_0,
        ),
        base is Err ==> {
            &&& refusal(plan, base, path)->0.code == -32000
            &&& refusal(plan, base, path)->0.message == "无法读取目录 "@ + plan.base + "："@
                + base->Err_0
        },
        base is Ok && path is Err ==> {
            &&& refusal(plan, base, path)->0.code == -32000
            &&& refusal(plan, base, path)->0.message == "路径不存在 "@ + plan.file + "："@
                + path->Err_0
        },
        base is Ok && path is Ok && !lies_within(base->Ok_0, path->Ok_0) ==> {
            &&& refusal(plan, base, path)->0.code == -32602
            &&& refusal(plan, base, path)->0.message == "非法文件名"@
        },
{
}

/// A comma separates the roots of a list.
pub proof fn law_root_lists(a: Seq<char>, b: Seq<char>)
    ensures
        clean_roots(split(a + seq![','] + b, ',')) == clean_roots(split(a, ',')) + clean_roots(
            split(b, ','),
        ),
{
    law_split(a, ',', b);
    lemma_clean_both(split(a, ','), split(b, ','));
}

proof fn lemma_clean_both(a: Seq<Seq<char>>, b: Seq<Seq<char>>)
    ensures
        clean_roots(a + b) == clean_roots(a) + clean_roots(b),
    decreases b.len(),
{
    if b.len() == 0 {
        assert(a + b =~= a);
        assert(clean_roots(a) + clean_roots(b) =~= clean_roots(a));
    } else {
        lemma_clean_both(a, b.drop_last());
        assert((a + b).drop_last() =~= a + b.drop_last());
        assert((a + b).last() == b.last());
        assert(clean_roots(a + b) =~= clean_roots(a) + clean_roots(b));
    }
}

/// An entry of a list of roots is a root without the white space around it and without the
/// slashes behind it. An entry of which nothing is left is none.
pub proof fn law_root_entry(entry: Seq<char>)
    requires
        !entry.contains(','),
    ensures
        strip_back(trimmed(entry), '/').len() > 0 ==> clean_roots(split(entry, ',')) == seq![
            strip_back(trimmed(entry), '/'),
        ],
        strip_back(trimmed(entry), '/').len() == 0 ==> clean_roots(split(entry, ',')).len() == 0,
{
    law_split(entry, ',', Seq::<char>::empty());
    let one = seq![entry];
    assert(one.drop_last() =~= Seq::<Seq<char>>::empty());
    assert(clean_roots(one.drop_last()) =~= Seq::<Seq<char>>::empty());
    if strip_back(trimmed(entry), '/').len() > 0 {
        assert(clean_roots(one) =~= seq![strip_back(trimmed(entry), '/')]);
    }
}

/// A list of roots is accepted where it has one and all begin with a slash. Else the list
/// is missing, or the first root that does not is named.
pub proof fn law_roots_of(raw: Seq<char>, k: int)
    ensures
        roots_of(raw) is Ok <==> clean_roots(split(raw, ',')).len() > 0 && forall|m: int|
            0 <= m < clean_roots(split(raw, ',')).len() ==> (#[trigger] clean_roots(
                split(raw, ','),
            )[m]).len() > 0 && clean_roots(split(raw, ','))[m][0] == '/',
        roots_of(raw) is Ok ==> roots_of(raw)->Ok_0 == clean_roots(split(raw, ',')),
        clean_roots(split(raw, ',')).len() == 0 ==> {
            &&& roots_of(raw)->Err_0.code == -32602
            &&& roots_of(raw)->Err_0.message == "Missing log_dir"@
        },
        ({
            let dirs = clean_roots(split(raw, ','));
            0 <= k < dirs.len() && !(dirs[k].len() > 0 && dirs[k][0] == '/') && (forall|m: int|
                0 <= m < k ==> (#[trigger] dirs[m]).len() > 0 && dirs[m][0] == '/') ==> {
                &&& roots_of(raw) is Err
                &&& roots_of(raw)->Err_0.code == -32602
                &&& roots_of(raw)->Err_0.message == "根目录必须是绝对路径："@ + dirs[k]
            }
        }),
{
    let dirs = clean_roots(split(raw, ','));
    lemma_first_relative(dirs, 0);
    if 0 <= k < dirs.len() && !(dirs[k].len() > 0 && dirs[k][0] == '/') && (forall|m: int|
        0 <= m < k ==> (#[trigger] dirs[m]).len() > 0 && dirs[m][0] == '/') {
        lemma_relative_at(dirs, 0, k);
    }
}

proof fn lemma_first_relative(dirs: Seq<Seq<char>>, k: int)
    requires
        0 <= k,
    ensures
        first_relative(dirs, k) is None <==> forall|m: int|
            k <= m < dirs.len() ==> is_absolute(#[trigger] dirs[m]),
    decreases dirs.len() - k,
{
    if k < dirs.len() {
        lemma_first_relative(dirs, k + 1);
    }
}

proof fn lemma_relative_at(dirs: Seq<Seq<char>>, i: int, k: int)
    requires
        0 <= i <= k < dirs.len(),
        !is_absolute(dirs[k]),
        forall|m: int| 0 <= m < k ==> (#[trigger] dirs[m]).len() > 0 && dirs[m][0] == '/',
    ensures
        first_relative(dirs, i) == Some(dirs[k]),
    decreases k - i,
{
    if i < k {
        assert(is_absolute(dirs[i]));
        lemma_relative_at(dirs, i + 1, k);
    }
}

/// A short name is repeated where two roots have it, and the first root that has the name
/// of an earlier one is the one that is named.
pub proof fn law_repeated(dirs: Seq<Seq<char>>, i: int, k: int)
    requires
        0 <= i < k < dirs.len(),
        base_name(dirs[i]) == base_name(dirs[k]),
        forall|x: int, y: int|
            0 <= x < y < k ==> base_name(#[trigger] dirs[x]) != base_name(#[trigger] dirs[y]),
    ensures
        first_repeated(dirs, 0) == Some(base_name(dirs[k])),
{
    lemma_repeated_at(dirs, 0, i, k);
}

proof fn lemma_repeated_at(dirs: Seq<Seq<char>>, from: int, i: int, k: int)
    requires
        0 <= from <= k,
        0 <= i < k < dirs.len(),
        base_name(dirs[i]) == base_name(dirs[k]),
        forall|x: int, y: int|
            0 <= x < y < k ==> base_name(#[trigger] dirs[x]) != base_name(#[trigger] dirs[y]),
    ensures
        first_repeated(dirs, from) == Some(base_name(dirs[k])),
    decreases k - from,
{
    if from < k {
        lemma_repeated_at(dirs, from + 1, i, k);
    }
}

/// Roots are refused where two share a short name, and the message names it.
pub proof fn law_shared_name(dirs: Seq<Seq<char>>)
    ensures
        names_refusal(dirs) is None <==> forall|x: int, y: int|
            0 <= x < y < dirs.len() ==> base_name(#[trigger] dirs[x]) != base_name(
                #[trigger] dirs[y],
            ),
        first_repeated(dirs, 0) is Some ==> {
            &&& names_refusal(dirs) is Some
            &&& names_refusal(dirs)->0.code == -32602
            &&& names_refusal(dirs)->0.message == "根目录重名："@ + first_repeated(dirs, 0)->0
        },
{
    lemma_repeated_from(dirs, 0);
}

proof fn lemma_repeated_from(dirs: Seq<Seq<char>>, k: int)
    requires
        0 <= k,
    ensures
        first_repeated(dirs, k) is None <==> forall|x: int, y: int|
            0 <= x < y && k <= y < dirs.len() ==> base_name(#[trigger] dirs[x]) != base_name(
                #[trigger] dirs[y],
            ),
    decreases dirs.len() - k,
{
    if k < dirs.len() {
        lemma_repeated_from(dirs, k + 1);
        if exists|j: int| 0 <= j < k && base_name(#[trigger] dirs[j]) == base_name(dirs[k]) {
            let j = choose|j: int| 0 <= j < k && base_name(#[trigger] dirs[j]) == base_name(
                dirs[k],
            );
            assert(base_name(dirs[j]) == base_name(dirs[k]));
        }
    }
}

/// The values of a path, a session, a fault and a lookup are what they hold.
pub proof fn law_values(
    j: Joined,
    s: Session,
    f: Fault,
    found: Vec<u8>,
    e: String,
)
    ensures
        j@.file == j.file@,
        j@.base == j.base@,
        j@.path == j.path@,
        s@ == texts(s.log_dirs@),
        f@.code == f.code,
        f@.message == f.message@,
        lookup_of(Ok(found)) == Ok::<_, Seq<char>>(found@),
        lookup_of(Err(e)) == Err::<Seq<u8>, _>(e@),
{
}

} // verus!
