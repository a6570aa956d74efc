//! What the parts of a pattern stand for: escapes, classes, dots, groups and repetitions.

use vstd::prelude::*;

use crate::regex::{cut, found_in, in_class, pats, spans, spans_all, Pat, Rx};
use crate::regex_laws::{is_plain, lemma_group_at, lemma_single_part};
use crate::regex_parser::{
    alt_at, alt_more, atom_at, cat_more, class_at, class_more, compiled, is_at, no_operand_message,
    rep_at, trailing_message,
};
use crate::text::decimal;

verus! {

/// A pattern of one atom stands for that atom.
proof fn lemma_one_atom(cs: Seq<char>, p: Pat)
    requires
        cs.len() > 0,
        cs[0] != ')',
        cs[0] != '|',
        atom_at(cs, 0) == Ok::<(Pat, int), (Seq<char>, int)>((p, cs.len() as int)),
    ensures
        compiled(cs) == Ok::<Pat, Seq<char>>(p),
{
    lemma_single_part(cs, p);
}

/// A class is found in a single character where the character lies in it.
proof fn lemma_class_found(neg: bool, rs: Seq<(char, char)>, c: char)
    ensures
        found_in(Pat::Class { neg, rs }, seq![c]) <==> in_class(rs, c) != neg,
{
    let p = Pat::Class { neg, rs };
    let cs = seq![c];
    if in_class(rs, c) != neg {
        assert(spans(p, cs, 0, 1));
    }
}

/// A class, and a dot, are found in a text where they are found in one of its characters.
pub proof fn law_one_character(p: Pat, text: Seq<char>)
    requires
        p is Class || p is Dot || p is Lit,
    ensures
        found_in(p, text) <==> exists|k: int|
            0 <= k < text.len() && found_in(p, seq![#[trigger] text[k]]),
{
    if found_in(p, text) {
        let (i, j) = choose|i: int, j: int| 0 <= i <= text.len() && #[trigger] spans(p, text, i, j);
        assert(spans(p, seq![text[i]], 0, 1));
        assert(found_in(p, seq![text[i]]));
    }
    if exists|k: int| 0 <= k < text.len() && found_in(p, seq![#[trigger] text[k]]) {
        let k = choose|k: int| 0 <= k < text.len() && found_in(p, seq![#[trigger] text[k]]);
        let one = seq![text[k]];
        let (i, j) = choose|i: int, j: int| 0 <= i <= one.len() && #[trigger] spans(p, one, i, j);
        assert(i == 0);
        assert(spans(p, text, k, k + 1));
    }
}

proof fn lemma_ranges(c: char)
    ensures
        in_class(seq![('0', '9')], c) <==> '0' <= c && c <= '9',
        in_class(seq![('0', '9'), ('A', 'Z'), ('a', 'z'), ('_', '_')], c) <==> ('0' <= c && c
            <= '9') || ('A' <= c && c <= 'Z') || ('a' <= c && c <= 'z') || c == '_',
        in_class(seq![(' ', ' '), ('\t', '\t'), ('\n', '\n'), ('\r', '\r')], c) <==> c == ' ' || c
            == '\t' || c == '\n' || c == '\r',
{
    let d = seq![('0', '9')];
    let w = seq![('0', '9'), ('A', 'Z'), ('a', 'z'), ('_', '_')];
    let s = seq![(' ', ' '), ('\t', '\t'), ('\n', '\n'), ('\r', '\r')];
    assert(d[0] == ('0', '9'));
    assert(w[0] == ('0', '9') && w[1] == ('A', 'Z') && w[2] == ('a', 'z') && w[3] == ('_', '_'));
    assert(s[0] == (' ', ' ') && s[1] == ('\t', '\t') && s[2] == ('\n', '\n') && s[3] == (
        '\r',
        '\r',
    ));
}

proof fn lemma_escape(x: char)
    ensures
        compiled(seq!['\\', x]) == Ok::<Pat, Seq<char>>(crate::regex_parser::escape(x)),
{
    let cs = seq!['\\', x];
    assert(cs[0] == '\\' && cs[1] == x);
    lemma_one_atom(cs, crate::regex_parser::escape(x));
}

/// `\d` stands for a digit, `\w` for a letter, a digit or `_`, and `\s` for a space, a tab,
/// a line feed or a carriage return; `\D`, `\W` and `\S` stand for all other characters.
pub proof fn law_escapes(c: char)
    ensures
        compiled(seq!['\\', 'd']) is Ok,
        found_in(compiled(seq!['\\', 'd'])->Ok_0, seq![c]) <==> '0' <= c && c <= '9',
        compiled(seq!['\\', 'D']) is Ok,
        found_in(compiled(seq!['\\', 'D'])->Ok_0, seq![c]) <==> !('0' <= c && c <= '9'),
        compiled(seq!['\\', 'w']) is Ok,
        found_in(compiled(seq!['\\', 'w'])->Ok_0, seq![c]) <==> ('0' <= c && c <= '9') || ('A' <= c
            && c <= 'Z') || ('a' <= c && c <= 'z') || c == '_',
        compiled(seq!['\\', 'W']) is Ok,
        found_in(compiled(seq!['\\', 'W'])->Ok_0, seq![c]) <==> !(('0' <= c && c <= '9') || ('A'
            <= c && c <= 'Z') || ('a' <= c && c <= 'z') || c == '_'),
        compiled(seq!['\\', 's']) is Ok,
        found_in(compiled(seq!['\\', 's'])->Ok_0, seq![c]) <==> c == ' ' || c == '\t' || c == '\n'
            || c == '\r',
        compiled(seq!['\\', 'S']) is Ok,
        found_in(compiled(seq!['\\', 'S'])->Ok_0, seq![c]) <==> !(c == ' ' || c == '\t' || c == '\n'
            || c == '\r'),
{
    lemma_escape('d');
    lemma_escape('D');
    lemma_escape('w');
    lemma_escape('W');
    lemma_escape('s');
    lemma_escape('S');
    let d = seq![('0', '9')];
    let w = seq![('0', '9'), ('A', 'Z'), ('a', 'z'), ('_', '_')];
    let s = seq![(' ', ' '), ('\t', '\t'), ('\n', '\n'), ('\r', '\r')];
    lemma_class_found(false, d, c);
    lemma_class_found(true, d, c);
    lemma_class_found(false, w, c);
    lemma_class_found(true, w, c);
    lemma_class_found(false, s, c);
    lemma_class_found(true, s, c);
    lemma_ranges(c);
}

/// A backslash before any other character stands for the character.
pub proof fn law_escaped_character(x: char, c: char)
    requires
        x != 'd' && x != 'D' && x != 'w' && x != 'W' && x != 's' && x != 'S',
    ensures
        compiled(seq!['\\', x]) is Ok,
        found_in(compiled(seq!['\\', x])->Ok_0, seq![c]) <==> c == x,
{
    lemma_escape(x);
    let p = Pat::Lit(x);
    if c == x {
        assert(spans(p, seq![c], 0, 1));
    }
}

/// A dot stands for any character.
pub proof fn law_dot(text: Seq<char>)
    ensures
        compiled(seq!['.']) is Ok,
        found_in(compiled(seq!['.'])->Ok_0, text) <==> text.len() > 0,
{
    lemma_one_atom(seq!['.'], Pat::Dot);
    if text.len() > 0 {
        assert(spans(Pat::Dot, text, 0, 1));
    }
}

/// A character without a meaning of its own stands for itself.
pub proof fn law_character(x: char, c: char)
    requires
        x != '*' && x != '+' && x != '?' && x != '{' && x != '|' && x != '(' && x != ')' && x != '['
            && x != '.' && x != '^' && x != '$' && x != '\\',
    ensures
        is_plain(x),
        compiled(seq![x]) is Ok,
        found_in(compiled(seq![x])->Ok_0, seq![c]) <==> c == x,
{
    lemma_one_atom(seq![x], Pat::Lit(x));
    let p = Pat::Lit(x);
    if c == x {
        assert(spans(p, seq![c], 0, 1));
    }
}

/// What repeats cannot begin a pattern: the message says where it stands and what it is.
pub proof fn law_nothing_to_repeat(c: char, rest: Seq<char>)
    requires
        c == '*' || c == '+' || c == '?' || c == '{',
    ensures
        compiled(seq![c] + rest) == Err::<Pat, Seq<char>>(
            "位置 "@ + decimal(0) + " 的 "@ + seq![c] + " 缺少左操作数"@,
        ),
{
    let cs = seq![c] + rest;
    assert(cs[0] == c);
    assert(atom_at(cs, 0) == Err::<(Pat, int), (Seq<char>, int)>((no_operand_message(0, c), 0)));
    assert(rep_at(cs, 0) == atom_at(cs, 0));
    assert(cat_more(cs, 0, seq![]) == atom_at(cs, 0));
}

/// The messages on what has nothing to apply to and on what follows a pattern say where it
/// stands.
pub proof fn law_messages(n: nat, c: char)
    ensures
        no_operand_message(n, c) == "位置 "@ + decimal(n) + " 的 "@ + seq![c] + " 缺少左操作数"@,
        trailing_message(n) == "位置 "@ + decimal(n) + " 处有多余字符"@,
{
}

proof fn lemma_class_pattern(cs: Seq<char>, neg: bool, rs: Seq<(char, char)>)
    requires
        cs.len() > 0,
        cs[0] == '[',
        class_at(cs, 0) == Ok::<(Pat, int), (Seq<char>, int)>(
            (Pat::Class { neg, rs }, cs.len() as int),
        ),
    ensures
        compiled(cs) == Ok::<Pat, Seq<char>>(Pat::Class { neg, rs }),
{
    lemma_one_atom(cs, Pat::Class { neg, rs });
}

proof fn lemma_escape_in_class(x: char)
    ensures
        compiled(seq!['[', '\\', x, ']']) == Ok::<Pat, Seq<char>>(
            Pat::Class { neg: false, rs: crate::regex_parser::class_escape(x) },
        ),
        compiled(seq!['[', '^', '\\', x, ']']) == Ok::<Pat, Seq<char>>(
            Pat::Class { neg: true, rs: crate::regex_parser::class_escape(x) },
        ),
{
    let rs = crate::regex_parser::class_escape(x);
    let none = Seq::<(char, char)>::empty();
    assert(none + rs =~= rs);
    let a = seq!['[', '\\', x, ']'];
    assert(a[0] == '[' && a[1] == '\\' && a[2] == x && a[3] == ']');
    assert(class_more(a, 1, false, none, None) == class_more(a, 3, false, none + rs, None));
    assert(class_more(a, 3, false, rs, None) == Ok::<(Pat, int), (Seq<char>, int)>(
        (Pat::Class { neg: false, rs }, 4),
    ));
    lemma_class_pattern(a, false, rs);
    let b = seq!['[', '^', '\\', x, ']'];
    assert(b[0] == '[' && b[1] == '^' && b[2] == '\\' && b[3] == x && b[4] == ']');
    assert(class_more(b, 2, true, none, None) == class_more(b, 4, true, none + rs, None));
    assert(class_more(b, 4, true, rs, None) == Ok::<(Pat, int), (Seq<char>, int)>(
        (Pat::Class { neg: true, rs }, 5),
    ));
    lemma_class_pattern(b, true, rs);
}

/// In a class `\d`, `\w` and `\s` stand for the same characters as outside of one, and
/// behind `^` for all others.
pub proof fn law_escapes_in_class(c: char)
    ensures
        compiled(seq!['[', '\\', 'd', ']']) is Ok,
        found_in(compiled(seq!['[', '\\', 'd', ']'])->Ok_0, seq![c]) <==> '0' <= c && c <= '9',
        compiled(seq!['[', '^', '\\', 'd', ']']) is Ok,
        found_in(compiled(seq!['[', '^', '\\', 'd', ']'])->Ok_0, seq![c]) <==> !('0' <= c && c
            <= '9'),
        compiled(seq!['[', '\\', 'w', ']']) is Ok,
        found_in(compiled(seq!['[', '\\', 'w', ']'])->Ok_0, seq![c]) <==> ('0' <= c && c <= '9')
            || ('A' <= c && c <= 'Z') || ('a' <= c && c <= 'z') || c == '_',
        compiled(seq!['[', '^', '\\', 'w', ']']) is Ok,
        found_in(compiled(seq!['[', '^', '\\', 'w', ']'])->Ok_0, seq![c]) <==> !(('0' <= c && c
            <= '9') || ('A' <= c && c <= 'Z') || ('a' <= c && c <= 'z') || c == '_'),
        compiled(seq!['[', '\\', 's', ']']) is Ok,
        found_in(compiled(seq!['[', '\\', 's', ']'])->Ok_0, seq![c]) <==> c == ' ' || c == '\t' || c
            == '\n' || c == '\r',
        compiled(seq!['[', '^', '\\', 's', ']']) is Ok,
        found_in(compiled(seq!['[', '^', '\\', 's', ']'])->Ok_0, seq![c]) <==> !(c == ' ' || c
            == '\t' || c == '\n' || c == '\r'),
{
    lemma_escape_in_class('d');
    lemma_escape_in_class('w');
    lemma_escape_in_class('s');
    let d = seq![('0', '9')];
    let w = seq![('0', '9'), ('A', 'Z'), ('a', 'z'), ('_', '_')];
    let s = seq![(' ', ' '), ('\t', '\t'), ('\n', '\n'), ('\r', '\r')];
    lemma_class_found(false, d, c);
    lemma_class_found(true, d, c);
    lemma_class_found(false, w, c);
    lemma_class_found(true, w, c);
    lemma_class_found(false, s, c);
    lemma_class_found(true, s, c);
    lemma_ranges(c);
}

/// In a class a backslash before any other character stands for the character.
pub proof fn law_escaped_in_class(x: char, c: char)
    requires
        x != 'd' && x != 'w' && x != 's',
    ensures
        compiled(seq!['[', '\\', x, ']']) is Ok,
        found_in(compiled(seq!['[', '\\', x, ']'])->Ok_0, seq![c]) <==> c == x,
        compiled(seq!['[', '^', '\\', x, ']']) is Ok,
        found_in(compiled(seq!['[', '^', '\\', x, ']'])->Ok_0, seq![c]) <==> c != x,
{
    lemma_escape_in_class(x);
    let rs = seq![(x, x)];
    assert(rs[0] == (x, x));
    lemma_class_found(false, rs, c);
    lemma_class_found(true, rs, c);
}

/// A range in a class stands for the characters between its ends, and with them; behind `^`
/// for all others. A range whose ends are the wrong way round is refused.
pub proof fn law_range(lo: char, hi: char, c: char)
    requires
        lo != '^' && lo != '\\',
        hi != ']',
    ensures
        lo <= hi ==> {
            &&& compiled(seq!['[', lo, '-', hi, ']']) is Ok
            &&& found_in(compiled(seq!['[', lo, '-', hi, ']'])->Ok_0, seq![c]) <==> lo <= c && c
                <= hi
            &&& compiled(seq!['[', '^', lo, '-', hi, ']']) is Ok
            &&& found_in(compiled(seq!['[', '^', lo, '-', hi, ']'])->Ok_0, seq![c]) <==> !(lo <= c
                && c <= hi)
        },
        lo > hi ==> {
            &&& compiled(seq!['[', lo, '-', hi, ']']) == Err::<Pat, Seq<char>>("字符范围倒置"@)
            &&& compiled(seq!['[', '^', lo, '-', hi, ']']) == Err::<Pat, Seq<char>>(
                "字符范围倒置"@,
            )
        },
{
    lemma_range(seq!['[', lo, '-', hi, ']'], false, lo, hi, 1);
    lemma_range(seq!['[', '^', lo, '-', hi, ']'], true, lo, hi, 2);
    let rs = seq![(lo, hi)];
    assert(rs[0] == (lo, hi));
    lemma_class_found(false, rs, c);
    lemma_class_found(true, rs, c);
}

proof fn lemma_range(cs: Seq<char>, neg: bool, lo: char, hi: char, at: int)
    requires
        lo != '^' && lo != '\\',
        hi != ']',
        at == if neg {
            2int
        } else {
            1
        },
        cs.len() == at + 4,
        cs[0] == '[',
        neg ==> cs[1] == '^',
        cs[at] == lo,
        cs[at + 1] == '-',
        cs[at + 2] == hi,
        cs[at + 3] == ']',
    ensures
        lo <= hi ==> compiled(cs) == Ok::<Pat, Seq<char>>(Pat::Class { neg, rs: seq![(lo, hi)] }),
        lo > hi ==> compiled(cs) == Err::<Pat, Seq<char>>("字符范围倒置"@),
{
    let none = Seq::<(char, char)>::empty();
    assert(none.push((lo, hi)) =~= seq![(lo, hi)]);
    if lo != ']' {
        assert(class_more(cs, at, neg, none, None) == class_more(
            cs,
            at + 1,
            neg,
            none,
            Some(lo),
        ));
    }
    assert(class_at(cs, 0) == class_more(cs, at + 1, neg, none, Some(lo)));
    if lo <= hi {
        assert(class_more(cs, at + 1, neg, none, Some(lo)) == class_more(
            cs,
            at + 3,
            neg,
            seq![(lo, hi)],
            None,
        ));
        lemma_class_pattern(cs, neg, seq![(lo, hi)]);
    } else {
        assert(atom_at(cs, 0) == class_at(cs, 0));
        assert(rep_at(cs, 0) == atom_at(cs, 0));
        assert(cat_more(cs, 0, seq![]) == atom_at(cs, 0));
    }
}

/// Characters that are listed in a class stand for themselves; behind `^` the class stands
/// for all others.
pub proof fn law_listed(t: Seq<char>, c: char)
    requires
        t.len() > 0,
        t[0] != '^',
        forall|k: int|
            0 <= k < t.len() ==> #[trigger] t[k] != ']' && t[k] != '\\' && t[k] != '-',
    ensures
        compiled(seq!['['] + t + seq![']']) is Ok,
        found_in(compiled(seq!['['] + t + seq![']'])->Ok_0, seq![c]) <==> t.contains(c),
        compiled(seq!['[', '^'] + t + seq![']']) is Ok,
        found_in(compiled(seq!['[', '^'] + t + seq![']'])->Ok_0, seq![c]) <==> !t.contains(c),
{
    let a = seq!['['] + t + seq![']'];
    let b = seq!['[', '^'] + t + seq![']'];
    let n = t.len() as int;
    assert forall|k: int| 0 <= k < n implies #[trigger] a[1 + k] == t[k] && b[2 + k] == t[k] by {}
    assert(a[0] == '[' && b[0] == '[' && b[1] == '^');
    assert(a[1] == t[0] && b[2] == t[0]);
    let ra = lemma_list(a, 1, t, 0, false, seq![], None, c);
    lemma_class_pattern(a, false, ra);
    lemma_class_found(false, ra, c);
    let rb = lemma_list(b, 2, t, 0, true, seq![], None, c);
    lemma_class_pattern(b, true, rb);
    lemma_class_found(true, rb, c);
    if t.contains(c) {
        let k = choose|k: int| 0 <= k < t.len() && t[k] == c;
        assert(0 <= k < t.len() && t[k] == c);
    }
}

proof fn lemma_push_class(rs: Seq<(char, char)>, x: char, c: char)
    ensures
        in_class(rs.push((x, x)), c) <==> in_class(rs, c) || c == x,
{
    let more = rs.push((x, x));
    if in_class(rs, c) {
        let k = choose|k: int| 0 <= k < rs.len() && (#[trigger] rs[k]).0 <= c && c <= rs[k].1;
        assert(more[k] == rs[k]);
    }
    if c == x {
        assert(more[rs.len() as int] == (x, x));
    }
    if in_class(more, c) {
        let k = choose|k: int| 0 <= k < more.len() && (#[trigger] more[k]).0 <= c && c
            <= more[k].1;
        if k < rs.len() {
            assert(rs[k] == more[k]);
        }
    }
}

/// The rest `t[k..]` of a list at `d + k` and the closing bracket behind it.
proof fn lemma_list(
    cs: Seq<char>,
    d: int,
    t: Seq<char>,
    k: int,
    neg: bool,
    rs: Seq<(char, char)>,
    held: Option<char>,
    c: char,
) -> (out: Seq<(char, char)>)
    requires
        1 <= d,
        0 <= k <= t.len(),
        cs.len() == d + t.len() + 1,
        forall|m: int| 0 <= m < t.len() ==> cs[d + m] == #[trigger] t[m],
        cs[d + t.len()] == ']',
        forall|m: int|
            0 <= m < t.len() ==> #[trigger] t[m] != ']' && t[m] != '\\' && t[m] != '-',
    ensures
        class_more(cs, d + k, neg, rs, held) == Ok::<(Pat, int), (Seq<char>, int)>(
            (Pat::Class { neg, rs: out }, cs.len() as int),
        ),
        in_class(out, c) <==> in_class(rs, c) || held == Some(c) || exists|m: int|
            k <= m < t.len() && #[trigger] t[m] == c,
    decreases t.len() - k,
{
    let with = crate::regex_parser::with_held(rs, held);
    if let Some(x) = held {
        lemma_push_class(rs, x, c);
    }
    if k == t.len() {
        with
    } else {
        assert(cs[d + k] == t[k]);
        let out = lemma_list(cs, d, t, k + 1, neg, with, Some(t[k]), c);
        assert(class_more(cs, d + k, neg, rs, held) == class_more(
            cs,
            d + k + 1,
            neg,
            with,
            Some(t[k]),
        ));
        if exists|m: int| k <= m < t.len() && #[trigger] t[m] == c {
            let m = choose|m: int| k <= m < t.len() && #[trigger] t[m] == c;
            assert(m == k || (k + 1 <= m < t.len() && t[m] == c));
        }
        if t[k] == c {
            assert(k <= k < t.len() && t[k] == c);
        }
        out
    }
}

/// A `-` before the closing bracket, and a `]` behind the opening one, stand for
/// themselves.
pub proof fn law_marks_in_class(x: char, c: char)
    requires
        x != ']' && x != '^' && x != '\\' && x != '-',
    ensures
        compiled(seq!['[', x, '-', ']']) is Ok,
        found_in(compiled(seq!['[', x, '-', ']'])->Ok_0, seq![c]) <==> c == x || c == '-',
        compiled(seq!['[', ']', x, ']']) is Ok,
        found_in(compiled(seq!['[', ']', x, ']'])->Ok_0, seq![c]) <==> c == x || c == ']',
        compiled(seq!['[', '^', ']', x, ']']) is Ok,
        found_in(compiled(seq!['[', '^', ']', x, ']'])->Ok_0, seq![c]) <==> c != x && c != ']',
{
    let none = Seq::<(char, char)>::empty();
    let a = seq!['[', x, '-', ']'];
    let ra = none.push((x, x)).push(('-', '-'));
    assert(class_more(a, 1, false, none, None) == class_more(a, 2, false, none, Some(x)));
    assert(class_more(a, 2, false, none, Some(x)) == class_more(a, 3, false, ra, None));
    lemma_class_pattern(a, false, ra);
    lemma_class_found(false, ra, c);
    lemma_push_class(none, x, c);
    lemma_push_class(none.push((x, x)), '-', c);
    let r = none.push((']', ']')).push((x, x));
    lemma_push_class(none, ']', c);
    lemma_push_class(none.push((']', ']')), x, c);
    let b = seq!['[', ']', x, ']'];
    assert(class_more(b, 2, false, none, Some(']')) == class_more(
        b,
        3,
        false,
        none.push((']', ']')),
        Some(x),
    ));
    lemma_class_pattern(b, false, r);
    lemma_class_found(false, r, c);
    let e = seq!['[', '^', ']', x, ']'];
    assert(class_more(e, 3, true, none, Some(']')) == class_more(
        e,
        4,
        true,
        none.push((']', ']')),
        Some(x),
    ));
    lemma_class_pattern(e, true, r);
    lemma_class_found(true, r, c);
}

/// A class that is not closed is refused.
pub proof fn law_unclosed_class(t: Seq<char>)
    requires
        forall|k: int|
            0 <= k < t.len() ==> #[trigger] t[k] != ']' && t[k] != '\\' && t[k] != '-',
    ensures
        compiled(seq!['['] + t) == Err::<Pat, Seq<char>>("字符类未闭合"@),
{
    let cs = seq!['['] + t;
    assert(cs[0] == '[');
    assert forall|k: int| 1 <= k < cs.len() implies #[trigger] cs[k] != ']' && cs[k] != '\\'
        && cs[k] != '-' by {
        assert(cs[k] == t[k - 1]);
    }
    let start = if is_at(cs, 1, '^') {
        2int
    } else {
        1
    };
    lemma_open_class(cs, start, is_at(cs, 1, '^'), seq![], None);
    assert(atom_at(cs, 0) == class_at(cs, 0));
    assert(rep_at(cs, 0) == atom_at(cs, 0));
    assert(cat_more(cs, 0, seq![]) == atom_at(cs, 0));
}

proof fn lemma_open_class(
    cs: Seq<char>,
    pos: int,
    neg: bool,
    rs: Seq<(char, char)>,
    held: Option<char>,
)
    requires
        1 <= pos <= cs.len(),
        forall|k: int|
            1 <= k < cs.len() ==> #[trigger] cs[k] != ']' && cs[k] != '\\' && cs[k] != '-',
    ensures
        class_more(cs, pos, neg, rs, held) == Err::<(Pat, int), (Seq<char>, int)>(
            ("字符类未闭合"@, cs.len() as int),
        ),
    decreases cs.len() - pos,
{
    if pos < cs.len() {
        let with = crate::regex_parser::with_held(rs, held);
        lemma_open_class(cs, pos + 1, neg, with, Some(cs[pos]));
        assert(class_more(cs, pos, neg, rs, held) == class_more(
            cs,
            pos + 1,
            neg,
            with,
            Some(cs[pos]),
        ));
    }
}

/// A group stands for the pattern between its brackets.
pub proof fn law_group(x: Seq<char>)
    requires
        compiled(x) is Ok,
    ensures
        compiled(seq!['('] + x + seq![')']) == compiled(x),
{
    let ds = seq!['('] + x + seq![')'];
    assert(ds.subrange(1, 1 + x.len() as int) =~= x);
    lemma_group_at(x, ds, 0);
    lemma_one_atom(ds, compiled(x)->Ok_0);
}

/// Two groups in a row stand for a match of the first and behind it a match of the second.
pub proof fn law_groups_in_a_row(x: Seq<char>, y: Seq<char>, text: Seq<char>)
    requires
        compiled(x) is Ok,
        compiled(y) is Ok,
    ensures
        compiled(seq!['('] + x + seq![')', '('] + y + seq![')']) is Ok,
        found_in(compiled(seq!['('] + x + seq![')', '('] + y + seq![')'])->Ok_0, text)
            <==> exists|i: int, k: int, j: int|
            #![trigger spans(compiled(x)->Ok_0, text, i, k), spans(compiled(y)->Ok_0, text, k, j)]
            0 <= i <= text.len() && spans(compiled(x)->Ok_0, text, i, k) && spans(
                compiled(y)->Ok_0,
                text,
                k,
                j,
            ),
{
    let px = compiled(x)->Ok_0;
    let py = compiled(y)->Ok_0;
    let two = seq![px, py];
    lemma_two_groups(x, y);
    assert forall|i: int, j: int| #[trigger] spans(Pat::Cat(two), text, i, j) <==> exists|k: int|
        #[trigger] cut(k) && spans(px, text, i, k) && spans(py, text, k, j) by {
        lemma_two_parts(px, py, text, i, j);
    }
    if found_in(Pat::Cat(two), text) {
        let (i, j) = choose|i: int, j: int|
            0 <= i <= text.len() && #[trigger] spans(Pat::Cat(two), text, i, j);
        let k = choose|k: int| #[trigger] cut(k) && spans(px, text, i, k) && spans(py, text, k, j);
        assert(spans(px, text, i, k) && spans(py, text, k, j));
    }
    if exists|i: int, k: int, j: int|
        #![trigger spans(px, text, i, k), spans(py, text, k, j)]
        0 <= i <= text.len() && spans(px, text, i, k) && spans(py, text, k, j) {
        let (i, k, j) = choose|i: int, k: int, j: int|
            #![trigger spans(px, text, i, k), spans(py, text, k, j)]
            0 <= i <= text.len() && spans(px, text, i, k) && spans(py, text, k, j);
        assert(cut(k));
        assert(spans(Pat::Cat(two), text, i, j));
    }
}

/// Where nothing repeats it, an atom stands alone.
proof fn lemma_rep_is_atom(ds: Seq<char>, pos: int)
    requires
        atom_at(ds, pos) is Ok,
        ({
            let q = atom_at(ds, pos)->Ok_0.1;
            q == ds.len() || 0 <= q < ds.len() && ds[q] != '*' && ds[q] != '+' && ds[q] != '?'
                && ds[q] != '{'
        }),
    ensures
        rep_at(ds, pos) == atom_at(ds, pos),
{
}

/// Two parts in a row.
proof fn lemma_row(ds: Seq<char>, at: int, p: Pat, q: Pat)
    requires
        0 < at < ds.len(),
        ds[0] != ')' && ds[0] != '|',
        ds[at] != ')' && ds[at] != '|',
        rep_at(ds, 0) == Ok::<(Pat, int), (Seq<char>, int)>((p, at)),
        rep_at(ds, at) == Ok::<(Pat, int), (Seq<char>, int)>((q, ds.len() as int)),
    ensures
        compiled(ds) == Ok::<Pat, Seq<char>>(Pat::Cat(seq![p, q])),
{
    let none = Seq::<Pat>::empty();
    let one = none.push(p);
    let two = one.push(q);
    let all = ds.len() as int;
    assert(cat_more(ds, 0, none) == cat_more(ds, at, one));
    assert(cat_more(ds, at, one) == cat_more(ds, all, two));
    assert(cat_more(ds, all, two) == Ok::<(Pat, int), (Seq<char>, int)>((Pat::Cat(two), all)));
    assert(alt_at(ds, 0) == alt_more(ds, all, seq![Pat::Cat(two)]));
    assert(two =~= seq![p, q]);
}

proof fn lemma_groups_text(x: Seq<char>, y: Seq<char>)
    ensures
        ({
            let ds = seq!['('] + x + seq![')', '('] + y + seq![')'];
            let n = x.len() as int;
            let m = y.len() as int;
            &&& ds.len() == n + m + 4
            &&& ds[0] == '('
            &&& ds.subrange(1, 1 + n) == x
            &&& ds[1 + n] == ')'
            &&& ds[n + 2] == '('
            &&& ds.subrange(n + 3, n + 3 + m) == y
            &&& ds[n + 3 + m] == ')'
        }),
{
    let ds = seq!['('] + x + seq![')', '('] + y + seq![')'];
    let n = x.len() as int;
    let m = y.len() as int;
    assert(ds.subrange(1, 1 + n) =~= x);
    assert(ds.subrange(n + 3, n + 3 + m) =~= y);
}

proof fn lemma_two_groups(x: Seq<char>, y: Seq<char>)
    requires
        compiled(x) is Ok,
        compiled(y) is Ok,
    ensures
        compiled(seq!['('] + x + seq![')', '('] + y + seq![')']) == Ok::<Pat, Seq<char>>(
            Pat::Cat(seq![compiled(x)->Ok_0, compiled(y)->Ok_0]),
        ),
{
    let ds = seq!['('] + x + seq![')', '('] + y + seq![')'];
    let n = x.len() as int;
    lemma_groups_text(x, y);
    lemma_group_at(x, ds, 0);
    lemma_group_at(y, ds, n + 2);
    lemma_rep_is_atom(ds, 0);
    lemma_rep_is_atom(ds, n + 2);
    lemma_row(ds, n + 2, compiled(x)->Ok_0, compiled(y)->Ok_0);
}

proof fn lemma_two_parts(a: Pat, b: Pat, cs: Seq<char>, i: int, j: int)
    ensures
        spans(Pat::Cat(seq![a, b]), cs, i, j) <==> exists|k: int| #[trigger]
            cut(k) && spans(a, cs, i, k) && spans(b, cs, k, j),
{
    let ab = seq![a, b];
    let one = seq![a];
    let none = Seq::<Pat>::empty();
    assert(ab.drop_last() =~= one);
    assert(one.drop_last() =~= none);
    assert(spans(Pat::Cat(ab), cs, i, j) == spans_all(ab, cs, i, j));
    assert forall|k: int| spans_all(one, cs, i, k) == #[trigger] spans(a, cs, i, k) by {
        if spans(a, cs, i, k) {
            assert(cut(i) && spans_all(none, cs, i, i));
            assert(spans_all(one, cs, i, k));
        }
        if spans_all(one, cs, i, k) {
            let m = choose|m: int| #[trigger]
                cut(m) && spans_all(one.drop_last(), cs, i, m) && spans(one.last(), cs, m, k);
            assert(m == i);
        }
    }
    if spans_all(ab, cs, i, j) {
        let k = choose|k: int| #[trigger]
            cut(k) && spans_all(ab.drop_last(), cs, i, k) && spans(ab.last(), cs, k, j);
        assert(spans(a, cs, i, k) == spans_all(one, cs, i, k));
        assert(cut(k) && spans(a, cs, i, k) && spans(b, cs, k, j));
    }
    if exists|k: int| #[trigger] cut(k) && spans(a, cs, i, k) && spans(b, cs, k, j) {
        let k = choose|k: int| #[trigger] cut(k) && spans(a, cs, i, k) && spans(b, cs, k, j);
        assert(spans_all(one, cs, i, k));
        assert(cut(k) && spans_all(ab.drop_last(), cs, i, k) && spans(ab.last(), cs, k, j));
    }
}

/// The value of an expression has the parts of the expression, in order.
pub proof fn law_expression_parts(
    c: char,
    neg: bool,
    rs: Vec<(char, char)>,
    v: Vec<Rx>,
    inner: Box<Rx>,
    lo: usize,
    hi: usize,
    k: int,
)
    ensures
        Rx::Empty@ == Pat::Empty,
        Rx::Lit(c)@ == Pat::Lit(c),
        Rx::Dot@ == Pat::Dot,
        Rx::Begin@ == Pat::Begin,
        Rx::End@ == Pat::End,
        (Rx::Class { neg, rs })@ == (Pat::Class { neg, rs: rs@ }),
        Rx::Rep(inner, lo, hi)@ == Pat::Rep(Box::new(inner@), lo as nat, hi as nat),
        Rx::Cat(v)@ is Cat,
        Rx::Cat(v)@->Cat_0.len() == v@.len(),
        0 <= k < v@.len() ==> Rx::Cat(v)@->Cat_0[k] == v@[k]@,
        Rx::Alt(v)@ is Alt,
        Rx::Alt(v)@->Alt_0.len() == v@.len(),
        0 <= k < v@.len() ==> Rx::Alt(v)@->Alt_0[k] == v@[k]@,
{
    let ps = pats(v@);
    assert(Rx::Cat(v)@ == Pat::Cat(ps));
    assert(Rx::Alt(v)@ == Pat::Alt(ps));
    assert(ps.len() == v@.len());
    if 0 <= k < v@.len() {
        assert(ps[k] == v@[k].pat());
    }
}

} // verus!
