//! Which entries a directory shows, and in which order.

use vstd::prelude::*;
use vstd::utf8::encode_utf8;

use crate::listing::{
    bare, behind_dot, bytes_le, dirs_among, is_log_name, kind_of, lists_roots, logs_among, logs_in,
    named, pairs, root_names, sorts, target_of, text_le, unreadable, EntryKind, Item, Listing,
};
use crate::roots::base_name;
use crate::text::{texts, upper};

verus! {

/// The name of a log ends in a dot and `log` or `out`, in upper or lower case, and
/// something stands before that.
pub proof fn law_log_name(name: Seq<char>)
    ensures
        is_log_name(name) <==> {
            let n = name.len();
            &&& n > 4
            &&& name[n - 4] == '.'
            &&& {
                ||| {
                    &&& name[n - 3] == 'l' || name[n - 3] == 'L'
                    &&& name[n - 2] == 'o' || name[n - 2] == 'O'
                    &&& name[n - 1] == 'g' || name[n - 1] == 'G'
                }
                ||| {
                    &&& name[n - 3] == 'o' || name[n - 3] == 'O'
                    &&& name[n - 2] == 'u' || name[n - 2] == 'U'
                    &&& name[n - 1] == 't' || name[n - 1] == 'T'
                }
            }
        },
{
    reveal_strlit("LOG");
    reveal_strlit("OUT");
    let n = name.len();
    let ext = behind_dot(name);
    lemma_behind_dot(name);
    assert(upper(ext).len() == ext.len());
    if is_log_name(name) {
        assert(ext.len() == 3);
        assert(n > 4);
        assert(ext =~= name.skip(n - 3));
        lemma_three_letters(name[n - 3], name[n - 2], name[n - 1]);
        assert(ext =~= seq![name[n - 3], name[n - 2], name[n - 1]]);
    } else if n > 4 && name[n - 4] == '.' {
        lemma_three_letters(name[n - 3], name[n - 2], name[n - 1]);
        if name[n - 3] != '.' && name[n - 2] != '.' && name[n - 1] != '.' {
            lemma_dot_before(name, name.len() - 4);
            assert(ext =~= seq![name[n - 3], name[n - 2], name[n - 1]]);
        }
    }
}

proof fn lemma_three_letters(a: char, b: char, c: char)
    ensures
        upper(seq![a, b, c]) == "LOG"@ <==> (a == 'l' || a == 'L') && (b == 'o' || b == 'O') && (c
            == 'g' || c == 'G'),
        upper(seq![a, b, c]) == "OUT"@ <==> (a == 'o' || a == 'O') && (b == 'u' || b == 'U') && (c
            == 't' || c == 'T'),
{
    reveal_strlit("LOG");
    reveal_strlit("OUT");
    lemma_upper_letter(a);
    lemma_upper_letter(b);
    lemma_upper_letter(c);
    let s = upper(seq![a, b, c]);
    assert(s.len() == 3);
    assert("LOG"@.len() == 3 && "LOG"@[0] == 'L' && "LOG"@[1] == 'O' && "LOG"@[2] == 'G');
    assert("OUT"@.len() == 3 && "OUT"@[0] == 'O' && "OUT"@[1] == 'U' && "OUT"@[2] == 'T');
    if s[0] == 'L' && s[1] == 'O' && s[2] == 'G' {
        assert(s =~= "LOG"@);
    }
    if s[0] == 'O' && s[1] == 'U' && s[2] == 'T' {
        assert(s =~= "OUT"@);
    }
}

proof fn lemma_upper_letter(c: char)
    ensures
        crate::text::upper_char(c) == 'L' <==> c == 'l' || c == 'L',
        crate::text::upper_char(c) == 'O' <==> c == 'o' || c == 'O',
        crate::text::upper_char(c) == 'G' <==> c == 'g' || c == 'G',
        crate::text::upper_char(c) == 'U' <==> c == 'u' || c == 'U',
        crate::text::upper_char(c) == 'T' <==> c == 't' || c == 'T',
{
    if 'a' <= c && c <= 'z' {
        let u = crate::text::upper_char(c);
        assert(u as u32 == c as u32 - 32);
    }
}

proof fn lemma_behind_dot(name: Seq<char>)
    ensures
        behind_dot(name).len() <= name.len(),
        behind_dot(name) == name.skip(name.len() - behind_dot(name).len()),
        forall|k: int|
            name.len() - behind_dot(name).len() <= k < name.len() ==> #[trigger] name[k] != '.',
        behind_dot(name).len() < name.len() ==> name[name.len() - behind_dot(name).len() - 1]
            == '.',
    decreases name.len(),
{
    if name.len() > 0 && name.last() != '.' {
        let front = name.drop_last();
        lemma_behind_dot(front);
        assert(behind_dot(name) =~= name.skip(name.len() - behind_dot(name).len()));
        assert forall|k: int|
            name.len() - behind_dot(name).len() <= k < name.len() implies #[trigger] name[k]
            != '.' by {
            if k < front.len() {
                assert(front[k] == name[k]);
            }
        }
    } else {
        assert(behind_dot(name) =~= name.skip(name.len() as int));
    }
}

proof fn lemma_dot_before(name: Seq<char>, at: int)
    requires
        0 <= at < name.len(),
        name[at] == '.',
        forall|k: int| at < k < name.len() ==> #[trigger] name[k] != '.',
    ensures
        behind_dot(name) == name.skip(at + 1),
{
    lemma_behind_dot(name);
    let a = name.len() - behind_dot(name).len();
    if a <= at {
        assert(name[at] != '.');
    }
    if a > at + 1 {
        assert(name[a - 1] == '.');
    }
}

/// The logs of two lists of names are those of the one and those of the other; a name
/// alone is one log or none.
pub proof fn law_logs_among(a: Seq<Seq<char>>, b: Seq<Seq<char>>, name: Seq<char>)
    ensures
        logs_among(a + b) == logs_among(a) + logs_among(b),
        is_log_name(name) ==> logs_among(seq![name]) == 1,
        !is_log_name(name) ==> logs_among(seq![name]) == 0,
    decreases b.len(),
{
    reveal_with_fuel(logs_among, 2);
    assert(seq![name].drop_last() =~= Seq::<Seq<char>>::empty());
    if b.len() == 0 {
        assert(a + b =~= a);
    } else {
        law_logs_among(a, b.drop_last(), name);
        assert((a + b).drop_last() =~= a + b.drop_last());
    }
}

/// Texts are ordered by the first byte in which they differ; a text comes before those
/// that go on behind it.
pub proof fn law_order(p: Seq<u8>, a: Seq<u8>, b: Seq<u8>, x: u8, y: u8)
    ensures
        bytes_le(p, p + a),
        a.len() > 0 ==> !bytes_le(p + a, p),
        x < y ==> bytes_le(p + seq![x] + a, p + seq![y] + b),
        x < y ==> !bytes_le(p + seq![y] + b, p + seq![x] + a),
    decreases p.len(),
{
    let pa = p + a;
    let px = p + seq![x] + a;
    let py = p + seq![y] + b;
    if p.len() > 0 {
        let q = p.drop_first();
        law_order(q, a, b, x, y);
        assert(pa.drop_first() =~= q + a);
        assert(px.drop_first() =~= q + seq![x] + a);
        assert(py.drop_first() =~= q + seq![y] + b);
        assert(pa[0] == p[0] && px[0] == p[0] && py[0] == p[0]);
    } else {
        assert(pa =~= a);
        assert(px[0] == x && py[0] == y);
    }
}

/// Names are ordered by their bytes.
pub proof fn law_text_order(a: Seq<char>, b: Seq<char>)
    ensures
        text_le(a, b) <==> bytes_le(encode_utf8(a), encode_utf8(b)),
{
}

/// Hidden entries are not shown. A directory is shown as one, and a file, or a link whose
/// target is missing, where it has the name of a log.
pub proof fn law_kind(name: Seq<char>, is_dir: bool, is_file: bool, is_broken_link: bool)
    ensures
        kind_of(name, is_dir, is_file, is_broken_link) == EntryKind::Dir <==> is_dir && !(name.len()
            > 0 && name[0] == '.'),
        kind_of(name, is_dir, is_file, is_broken_link) == EntryKind::Log <==> !is_dir && (is_file
            || is_broken_link) && is_log_name(name) && name[0] != '.',
{
    if is_log_name(name) {
        law_log_name(name);
    }
}

/// An absolute target of a link is taken as it is. A relative one is meant from the
/// directory of the link.
pub proof fn law_target(dir: Seq<char>, target: Seq<char>)
    ensures
        target.len() > 0 && target[0] == '/' ==> target_of(dir, target) == target,
        !(target.len() > 0 && target[0] == '/') && dir.len() > 0 && dir.last() != '/' ==> target_of(
            dir,
            target,
        ) == dir + seq!['/'] + target,
        !(target.len() > 0 && target[0] == '/') && !(dir.len() > 0 && dir.last() != '/')
            ==> target_of(dir, target) == dir + target,
{
}

/// An entry is shown with its size, its time and its target; a link whose target is
/// missing has neither size nor time.
pub proof fn law_shown(item: Item)
    ensures
        item.kind() == kind_of(item.name@, item.is_dir, item.is_file, item.is_broken_link),
        item.shown().target == item.facts.target,
        !item.is_broken_link ==> item.shown() == item.facts,
        item.is_broken_link ==> item.shown().size == 0 && item.shown().modified_at == 0,
{
}

/// A directory shows what its first entries show and then what its others show.
pub proof fn law_entries_join(dir: Seq<char>, a: Seq<Item>, b: Seq<Item>)
    ensures
        dirs_among(a + b) == dirs_among(a) + dirs_among(b),
        logs_in(dir, a + b) == logs_in(dir, a) + logs_in(dir, b),
    decreases b.len(),
{
    if b.len() == 0 {
        assert(a + b =~= a);
        assert(dirs_among(a) + dirs_among(b) =~= dirs_among(a));
        assert(logs_in(dir, a) + logs_in(dir, b) =~= logs_in(dir, a));
    } else {
        law_entries_join(dir, a, b.drop_last());
        assert((a + b).drop_last() =~= a + b.drop_last());
        assert((a + b).last() == b.last());
        assert(dirs_among(a + b) =~= dirs_among(a) + dirs_among(b));
        assert(logs_in(dir, a + b) =~= logs_in(dir, a) + logs_in(dir, b));
    }
}

/// An entry that is a directory is shown by its name. An entry that is a log is shown by
/// its name behind that of its directory and a slash, with what is known of it.
pub proof fn law_entry(dir: Seq<char>, item: Item)
    ensures
        dirs_among(Seq::<Item>::empty()).len() == 0,
        logs_in(dir, Seq::<Item>::empty()).len() == 0,
        item.kind() == EntryKind::Dir ==> dirs_among(seq![item]) == seq![item.name@],
        item.kind() != EntryKind::Dir ==> dirs_among(seq![item]).len() == 0,
        item.kind() == EntryKind::Log ==> logs_in(dir, seq![item]) == seq![
            (dir + seq!['/'] + item.name@, item.shown()),
        ],
        item.kind() != EntryKind::Log ==> logs_in(dir, seq![item]).len() == 0,
{
    reveal_strlit("/");
    assert("/"@ =~= seq!['/']);
    let one = seq![item];
    assert(one.drop_last() =~= Seq::<Item>::empty());
    if item.kind() == EntryKind::Dir {
        assert(dirs_among(one) =~= seq![item.name@]);
    } else if item.kind() == EntryKind::Log {
        assert(logs_in(dir, one) =~= seq![(dir + seq!['/'] + item.name@, item.shown())]);
    }
}

/// A list that is put into order holds the same things, each name behind those that come
/// before it, and the things of one name in the order that they had.
pub proof fn law_sorted<T>(v: Seq<(Seq<char>, T)>, out: Seq<(Seq<char>, T)>)
    requires
        sorts(v, out),
    ensures
        out.len() == v.len(),
        forall|x: (Seq<char>, T)| #[trigger] out.contains(x) <==> v.contains(x),
        forall|i: int, j: int|
            0 <= i < j < out.len() ==> text_le((#[trigger] out[i]).0, (#[trigger] out[j]).0),
        forall|name: Seq<char>| #[trigger] named(out, name) == named(v, name),
{
    assert forall|x: (Seq<char>, T)| #[trigger] out.contains(x) <==> v.contains(x) by {
        lemma_named_contains(out, x);
        lemma_named_contains(v, x);
        assert(named(out, x.0) == named(v, x.0));
    }
}

proof fn lemma_named_contains<T>(v: Seq<(Seq<char>, T)>, x: (Seq<char>, T))
    ensures
        v.contains(x) <==> named(v, x.0).contains(x.1),
    decreases v.len(),
{
    if v.len() > 0 {
        let front = v.drop_last();
        lemma_named_contains(front, x);
        assert(v =~= front.push(v.last()));
        let before = named(front, x.0);
        if v.contains(x) {
            let i = choose|i: int| 0 <= i < v.len() && v[i] == x;
            if i < front.len() {
                assert(front[i] == x);
                assert(before.contains(x.1));
                let j = choose|j: int| 0 <= j < before.len() && before[j] == x.1;
                assert(named(v, x.0)[j] == x.1);
            } else {
                assert(named(v, x.0).last() == x.1);
            }
        }
        if named(v, x.0).contains(x.1) {
            let all = named(v, x.0);
            let j = choose|j: int| 0 <= j < all.len() && all[j] == x.1;
            if j < before.len() {
                assert(before[j] == x.1);
                assert(front.contains(x));
                let i = choose|i: int| 0 <= i < front.len() && front[i] == x;
                assert(v[i] == x);
            } else {
                assert(v[v.len() - 1] == x);
            }
        }
    }
}

/// The things of a name in a list are those in its first part and then those in the other;
/// a thing alone counts where it has the name.
pub proof fn law_named<T>(
    a: Seq<(Seq<char>, T)>,
    b: Seq<(Seq<char>, T)>,
    x: (Seq<char>, T),
    name: Seq<char>,
)
    ensures
        named(a + b, name) == named(a, name) + named(b, name),
        x.0 == name ==> named(seq![x], name) == seq![x.1],
        x.0 != name ==> named(seq![x], name).len() == 0,
    decreases b.len(),
{
    let one = seq![x];
    let none = Seq::<(Seq<char>, T)>::empty();
    assert(one.drop_last() =~= none);
    assert(named(none, name) =~= Seq::<T>::empty());
    assert(one.last() == x);
    if x.0 == name {
        assert(named(one, name) =~= seq![x.1]);
    } else {
        assert(named(one, name) == named(none, name));
    }
    if b.len() == 0 {
        assert(a + b =~= a);
        assert(named(a, name) + named(b, name) =~= named(a, name));
    } else {
        law_named(a, b.drop_last(), x, name);
        assert((a + b).drop_last() =~= a + b.drop_last());
        assert((a + b).last() == b.last());
        assert(named(a + b, name) =~= named(a, name) + named(b, name));
    }
}

/// Above the roots their short names are shown, in order, and nothing else.
pub proof fn law_roots_shown(listing: Listing, dirs: Seq<Seq<char>>)
    requires
        lists_roots(listing, dirs),
    ensures
        listing.dir@.len() == 0,
        listing.entries@.len() == 0,
        listing.dirs@.len() == dirs.len(),
        forall|k: int|
            0 <= k < dirs.len() ==> texts(listing.dirs@).contains(base_name(#[trigger] dirs[k])),
        forall|i: int, j: int|
            0 <= i < j < listing.dirs@.len() ==> text_le(
                (#[trigger] listing.dirs@[i])@,
                (#[trigger] listing.dirs@[j])@,
            ),
{
    reveal_strlit("");
    let all = bare(root_names(dirs));
    let out = bare(texts(listing.dirs@));
    law_sorted(all, out);
    assert forall|k: int| 0 <= k < dirs.len() implies texts(listing.dirs@).contains(
        base_name(#[trigger] dirs[k]),
    ) by {
        let x = (base_name(dirs[k]), ());
        assert(all[k] == x);
        assert(all.contains(x));
        assert(out.contains(x));
        let i = choose|i: int| 0 <= i < out.len() && out[i] == x;
        assert(texts(listing.dirs@)[i] == base_name(dirs[k]));
    }
    assert forall|i: int, j: int| 0 <= i < j < listing.dirs@.len() implies text_le(
        (#[trigger] listing.dirs@[i])@,
        (#[trigger] listing.dirs@[j])@,
    ) by {
        assert(out[i].0 == listing.dirs@[i]@);
        assert(out[j].0 == listing.dirs@[j]@);
    }
}

/// A list of names and things holds the names and things of its pairs; names alone have
/// nothing beside them.
pub proof fn law_pairs<T>(v: Seq<(String, T)>, names: Seq<Seq<char>>, k: int)
    ensures
        pairs(v).len() == v.len(),
        0 <= k < v.len() ==> pairs(v)[k] == (v[k].0@, v[k].1),
        bare(names).len() == names.len(),
        0 <= k < names.len() ==> bare(names)[k].0 == names[k],
        root_names(names).len() == names.len(),
        0 <= k < names.len() ==> root_names(names)[k] == base_name(names[k]),
{
}

/// That a directory cannot be read says which directory, and why.
pub proof fn law_unreadable(dir: Seq<char>, e: Seq<char>)
    ensures
        unreadable(dir, e).code == -32000,
        unreadable(dir, e).message == "无法读取目录 "@ + dir + "："@ + e,
{
}

} // verus!
