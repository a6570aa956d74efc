//! What a class stands for, whatever stands in it.

use vstd::prelude::*;

use crate::regex::{found_in, in_class, spans, Pat};
use crate::regex_laws::law_repeated_atom;
use crate::regex_parser::{atom_at, class_at, class_escape, class_more, compiled, with_held};

verus! {

/// What can stand in a class: a character, a range of characters, or a character behind a
/// backslash.
pub enum ClassItem {
    One(char),
    Range(char, char),
    Escape(char),
}

impl ClassItem {
    /// The item is written as such in a class.
    pub open spec fn wf(self) -> bool {
        match self {
            ClassItem::One(x) => x != ']' && x != '\\' && x != '-',
            ClassItem::Range(lo, hi) => lo != ']' && lo != '\\' && lo != '-' && hi != ']' && lo
                <= hi,
            ClassItem::Escape(_) => true,
        }
    }

    /// The item as it is written.
    pub open spec fn written(self) -> Seq<char> {
        match self {
            ClassItem::One(x) => seq![x],
            ClassItem::Range(lo, hi) => seq![lo, '-', hi],
            ClassItem::Escape(x) => seq!['\\', x],
        }
    }

    /// The item stands for `c`.
    pub open spec fn holds(self, c: char) -> bool {
        match self {
            ClassItem::One(x) => c == x,
            ClassItem::Range(lo, hi) => lo <= c && c <= hi,
            ClassItem::Escape(x) => if x == 'd' {
                '0' <= c && c <= '9'
            } else if x == 'w' {
                ('0' <= c && c <= '9') || ('A' <= c && c <= 'Z') || ('a' <= c && c <= 'z') || c
                    == '_'
            } else if x == 's' {
                c == ' ' || c == '\t' || c == '\n' || c == '\r'
            } else {
                c == x
            },
        }
    }
}

/// Items as they are written one behind the other.
pub open spec fn written_items(items: Seq<ClassItem>) -> Seq<char>
    decreases items.len(),
{
    if items.len() == 0 {
        seq![]
    } else {
        items[0].written() + written_items(items.drop_first())
    }
}

/// A class stands for the characters for which one of its items stands; behind `^` it
/// stands for all others.
pub proof fn law_class(items: Seq<ClassItem>, c: char)
    requires
        items.len() > 0,
        forall|k: int| 0 <= k < items.len() ==> (#[trigger] items[k]).wf(),
        written_items(items)[0] != '^',
    ensures
        compiled(seq!['['] + written_items(items) + seq![']']) is Ok,
        found_in(compiled(seq!['['] + written_items(items) + seq![']'])->Ok_0, seq![c])
            <==> exists|k: int| 0 <= k < items.len() && (#[trigger] items[k]).holds(c),
        compiled(seq!['[', '^'] + written_items(items) + seq![']']) is Ok,
        found_in(compiled(seq!['[', '^'] + written_items(items) + seq![']'])->Ok_0, seq![c])
            <==> !exists|k: int| 0 <= k < items.len() && (#[trigger] items[k]).holds(c),
{
    lemma_class_of(items, c, false);
    lemma_class_of(items, c, true);
}

/// What a class begins with.
spec fn opening(neg: bool) -> Seq<char> {
    if neg {
        seq!['[', '^']
    } else {
        seq!['[']
    }
}

proof fn lemma_class_text(items: Seq<ClassItem>, neg: bool)
    requires
        items.len() > 0,
        forall|k: int| 0 <= k < items.len() ==> (#[trigger] items[k]).wf(),
        written_items(items)[0] != '^',
    ensures
        ({
            let cs = opening(neg) + written_items(items) + seq![']'];
            let start = opening(neg).len() as int;
            &&& start < cs.len()
            &&& start == if neg {
                2int
            } else {
                1
            }
            &&& cs[0] == '['
            &&& neg ==> cs[1] == '^'
            &&& cs[start] != '^'
            &&& cs[start] != ']'
            &&& cs.skip(start) == written_items(items) + seq![']']
        }),
{
    let w = written_items(items);
    let cs = opening(neg) + w + seq![']'];
    let start = opening(neg).len() as int;
    assert(items[0].wf());
    assert(w == items[0].written() + written_items(items.drop_first()));
    assert(w[0] == items[0].written()[0]);
    assert(cs[start] == w[0]);
    assert(cs.skip(start) =~= w + seq![']']);
}

proof fn lemma_class_of(items: Seq<ClassItem>, c: char, neg: bool)
    requires
        items.len() > 0,
        forall|k: int| 0 <= k < items.len() ==> (#[trigger] items[k]).wf(),
        written_items(items)[0] != '^',
    ensures
        ({
            let cs = opening(neg) + written_items(items) + seq![']'];
            &&& compiled(cs) is Ok
            &&& found_in(compiled(cs)->Ok_0, seq![c]) <==> (exists|k: int|
                0 <= k < items.len() && (#[trigger] items[k]).holds(c)) != neg
        }),
{
    let cs = opening(neg) + written_items(items) + seq![']'];
    let start = opening(neg).len() as int;
    lemma_class_text(items, neg);
    let none = Seq::<(char, char)>::empty();
    let rs = lemma_items(cs, start, items, neg, none, None, c);
    assert(class_at(cs, 0) == class_more(cs, start, neg, none, None));
    let p = Pat::Class { neg, rs };
    assert(atom_at(cs, 0) == class_at(cs, 0));
    law_repeated_atom(cs, p, '*');
    if in_class(rs, c) != neg {
        assert(spans(p, seq![c], 0, 1));
    }
}

/// Ranges that are added to a class add their characters.
proof fn lemma_more_ranges(rs: Seq<(char, char)>, more: Seq<(char, char)>, c: char)
    ensures
        in_class(rs + more, c) <==> in_class(rs, c) || in_class(more, c),
{
    let all = rs + more;
    if in_class(rs, c) {
        let k = choose|k: int| 0 <= k < rs.len() && (#[trigger] rs[k]).0 <= c && c <= rs[k].1;
        assert(all[k] == rs[k]);
    }
    if in_class(more, c) {
        let k = choose|k: int|
            0 <= k < more.len() && (#[trigger] more[k]).0 <= c && c <= more[k].1;
        assert(all[rs.len() + k] == more[k]);
    }
    if in_class(all, c) {
        let k = choose|k: int| 0 <= k < all.len() && (#[trigger] all[k]).0 <= c && c <= all[k].1;
        if k < rs.len() {
            assert(rs[k] == all[k]);
        } else {
            assert(more[k - rs.len()] == all[k]);
        }
    }
}

proof fn lemma_one_range(rs: Seq<(char, char)>, lo: char, hi: char, c: char)
    ensures
        in_class(rs.push((lo, hi)), c) <==> in_class(rs, c) || lo <= c && c <= hi,
{
    let one = seq![(lo, hi)];
    assert(one[0] == (lo, hi));
    lemma_more_ranges(rs, one, c);
    assert(rs.push((lo, hi)) =~= rs + one);
}

proof fn lemma_escape_ranges(x: char, c: char)
    ensures
        in_class(class_escape(x), c) <==> ClassItem::Escape(x).holds(c),
{
    let d = seq![('0', '9')];
    let w = seq![('0', '9'), ('A', 'Z'), ('a', 'z'), ('_', '_')];
    let s = seq![(' ', ' '), ('\t', '\t'), ('\n', '\n'), ('\r', '\r')];
    let one = seq![(x, x)];
    assert(d[0] == ('0', '9'));
    assert(w[0] == ('0', '9') && w[1] == ('A', 'Z') && w[2] == ('a', 'z') && w[3] == ('_', '_'));
    assert(s[0] == (' ', ' ') && s[1] == ('\t', '\t') && s[2] == ('\n', '\n') && s[3] == (
        '\r',
        '\r',
    ));
    assert(one[0] == (x, x));
}

/// The first of the items that stand at `pos`.
proof fn lemma_first_item(cs: Seq<char>, pos: int, items: Seq<ClassItem>)
    requires
        0 <= pos <= cs.len(),
        items.len() > 0,
        cs.skip(pos) == written_items(items) + seq![']'],
    ensures
        pos + items[0].written().len() < cs.len(),
        forall|k: int|
            0 <= k < items[0].written().len() ==> #[trigger] cs[pos + k] == items[0].written()[k],
        cs.skip(pos + items[0].written().len()) == written_items(items.drop_first()) + seq![']'],
{
    let w = items[0].written();
    let n = w.len() as int;
    let more = written_items(items.drop_first());
    let back = cs.skip(pos);
    assert(written_items(items) == w + more);
    assert(back.len() == n + more.len() + 1);
    assert(back.len() == cs.len() - pos);
    assert forall|k: int| 0 <= k < n implies #[trigger] cs[pos + k] == w[k] by {
        assert(back[k] == cs[pos + k]);
    }
    let tail = cs.skip(pos + n);
    assert forall|k: int| 0 <= k < tail.len() implies tail[k] == (more + seq![']'])[k] by {
        assert(back[n + k] == tail[k]);
    }
    assert(tail =~= more + seq![']']);
}

/// The rest of a class: the items that follow at `pos` and the closing bracket.
proof fn lemma_items(
    cs: Seq<char>,
    pos: int,
    items: Seq<ClassItem>,
    neg: bool,
    rs: Seq<(char, char)>,
    held: Option<char>,
    c: char,
) -> (out: Seq<(char, char)>)
    requires
        0 <= pos <= cs.len(),
        cs.skip(pos) == written_items(items) + seq![']'],
        forall|k: int| 0 <= k < items.len() ==> (#[trigger] items[k]).wf(),
    ensures
        class_more(cs, pos, neg, rs, held) == Ok::<(Pat, int), (Seq<char>, int)>(
            (Pat::Class { neg, rs: out }, cs.len() as int),
        ),
        in_class(out, c) <==> in_class(rs, c) || held == Some(c) || exists|k: int|
            0 <= k < items.len() && (#[trigger] items[k]).holds(c),
    decreases items.len(),
{
    let with = with_held(rs, held);
    if let Some(x) = held {
        lemma_one_range(rs, x, x, c);
    }
    if items.len() == 0 {
        assert(cs.skip(pos)[0] == ']');
        assert(cs.skip(pos).len() == 1);
        with
    } else {
        let item = items[0];
        let rest = items.drop_first();
        assert(item.wf());
        assert forall|k: int| 0 <= k < rest.len() implies (#[trigger] rest[k]).wf() by {
            assert(rest[k] == items[k + 1]);
        }
        lemma_first_item(cs, pos, items);
        lemma_exists_first(items, c);
        match item {
            ClassItem::One(x) => {
                assert(cs[pos + 0] == x);
                let out = lemma_items(cs, pos + 1, rest, neg, with, Some(x), c);
                assert(class_more(cs, pos, neg, rs, held) == class_more(
                    cs,
                    pos + 1,
                    neg,
                    with,
                    Some(x),
                ));
                out
            },
            ClassItem::Range(lo, hi) => {
                assert(cs[pos + 0] == lo && cs[pos + 1] == '-' && cs[pos + 2] == hi);
                let out = lemma_items(cs, pos + 3, rest, neg, with.push((lo, hi)), None, c);
                lemma_one_range(with, lo, hi, c);
                assert(class_more(cs, pos, neg, rs, held) == class_more(
                    cs,
                    pos + 1,
                    neg,
                    with,
                    Some(lo),
                ));
                assert(class_more(cs, pos + 1, neg, with, Some(lo)) == class_more(
                    cs,
                    pos + 3,
                    neg,
                    with.push((lo, hi)),
                    None,
                ));
                out
            },
            ClassItem::Escape(x) => {
                assert(cs[pos + 0] == '\\' && cs[pos + 1] == x);
                let more = with + class_escape(x);
                let out = lemma_items(cs, pos + 2, rest, neg, more, None, c);
                lemma_more_ranges(with, class_escape(x), c);
                lemma_escape_ranges(x, c);
                assert(class_more(cs, pos, neg, rs, held) == class_more(
                    cs,
                    pos + 2,
                    neg,
                    more,
                    None,
                ));
                out
            },
        }
    }
}

proof fn lemma_exists_first(items: Seq<ClassItem>, c: char)
    requires
        items.len() > 0,
    ensures
        (exists|k: int| 0 <= k < items.len() && (#[trigger] items[k]).holds(c)) <==> items[0].holds(
            c,
        ) || exists|k: int|
            0 <= k < items.drop_first().len() && (#[trigger] items.drop_first()[k]).holds(c),
{
    let rest = items.drop_first();
    if exists|k: int| 0 <= k < items.len() && (#[trigger] items[k]).holds(c) {
        let k = choose|k: int| 0 <= k < items.len() && (#[trigger] items[k]).holds(c);
        if k > 0 {
            assert(rest[k - 1] == items[k]);
        }
    }
    if exists|k: int| 0 <= k < rest.len() && (#[trigger] rest[k]).holds(c) {
        let k = choose|k: int| 0 <= k < rest.len() && (#[trigger] rest[k]).holds(c);
        assert(items[k + 1] == rest[k]);
    }
}

} // verus!
