//! How often the parts of a pattern are matched.

use vstd::prelude::*;

use crate::regex::{cut, ends, found_in, spans, spans_all, spans_times, Pat};
use crate::regex_laws::{lemma_atom_before, lemma_group_at, lemma_single_part};
use crate::regex_parser::{
    alt_at, alt_more, atom_at, brace_at, cat_more, compiled, digits_end, number_at, rep_at,
};
use crate::text::{decimal, is_digit};
use crate::text_laws::law_decimal;

verus! {

/// The bounds `{m}`, as they are written.
pub open spec fn exactly(m: nat) -> Seq<char> {
    seq!['{'] + decimal(m) + seq!['}']
}

/// The bounds `{m,}`, as they are written.
pub open spec fn at_least(m: nat) -> Seq<char> {
    seq!['{'] + decimal(m) + seq![',', '}']
}

/// The bounds `{m,n}`, as they are written.
pub open spec fn between(m: nat, n: nat) -> Seq<char> {
    seq!['{'] + decimal(m) + seq![','] + decimal(n) + seq!['}']
}

proof fn lemma_digits_end(ds: Seq<char>, pos: int, end: int)
    requires
        0 <= pos <= end <= ds.len(),
        forall|k: int| pos <= k < end ==> is_digit(#[trigger] ds[k]),
        end == ds.len() || !is_digit(ds[end]),
    ensures
        digits_end(ds, pos) == end,
    decreases end - pos,
{
    if pos < end {
        lemma_digits_end(ds, pos + 1, end);
    }
}

/// A number in decimal is read as the number.
proof fn lemma_number_at(ds: Seq<char>, pos: int, m: nat)
    requires
        0 <= pos,
        pos + decimal(m).len() < ds.len(),
        ds.subrange(pos, pos + decimal(m).len()) == decimal(m),
        !is_digit(ds[pos + decimal(m).len()]),
    ensures
        m <= usize::MAX ==> number_at(ds, pos) == Ok::<(Option<nat>, int), (Seq<char>, int)>(
            (Some(m), pos + decimal(m).len()),
        ),
        m > usize::MAX ==> number_at(ds, pos) == Err::<(Option<nat>, int), (Seq<char>, int)>(
            ("数字过大"@, pos + decimal(m).len()),
        ),
{
    law_decimal(m);
    let end = pos + decimal(m).len();
    assert forall|k: int| pos <= k < end implies is_digit(#[trigger] ds[k]) by {
        assert(ds.subrange(pos, end)[k - pos] == decimal(m)[k - pos]);
    }
    lemma_digits_end(ds, pos, end);
}

proof fn lemma_exactly_text(ds: Seq<char>, pos: int, m: nat)
    requires
        0 <= pos,
        pos + exactly(m).len() <= ds.len(),
        ds.subrange(pos, pos + exactly(m).len()) == exactly(m),
    ensures
        exactly(m).len() == decimal(m).len() + 2,
        ds.subrange(pos + 1, pos + 1 + decimal(m).len()) == decimal(m),
        ds[pos + 1 + decimal(m).len()] == '}',
{
    let w = exactly(m);
    let d = decimal(m);
    let n = d.len() as int;
    let part = ds.subrange(pos, pos + w.len());
    assert(part[1 + n] == '}');
    assert(ds.subrange(pos + 1, pos + 1 + n) =~= d) by {
        assert forall|k: int| 0 <= k < n implies ds[pos + 1 + k] == #[trigger] d[k] by {
            assert(part[1 + k] == d[k]);
        }
    }
}

proof fn lemma_at_least_text(ds: Seq<char>, pos: int, m: nat)
    requires
        0 <= pos,
        pos + at_least(m).len() <= ds.len(),
        ds.subrange(pos, pos + at_least(m).len()) == at_least(m),
    ensures
        at_least(m).len() == decimal(m).len() + 3,
        ds.subrange(pos + 1, pos + 1 + decimal(m).len()) == decimal(m),
        ds[pos + 1 + decimal(m).len()] == ',',
        ds[pos + 2 + decimal(m).len()] == '}',
{
    let w = at_least(m);
    let d = decimal(m);
    let n = d.len() as int;
    let part = ds.subrange(pos, pos + w.len());
    assert(part[1 + n] == ',' && part[2 + n] == '}');
    assert(ds.subrange(pos + 1, pos + 1 + n) =~= d) by {
        assert forall|k: int| 0 <= k < n implies ds[pos + 1 + k] == #[trigger] d[k] by {
            assert(part[1 + k] == d[k]);
        }
    }
}

proof fn lemma_between_text(ds: Seq<char>, pos: int, m: nat, n: nat)
    requires
        0 <= pos,
        pos + between(m, n).len() <= ds.len(),
        ds.subrange(pos, pos + between(m, n).len()) == between(m, n),
    ensures
        ({
            let a = decimal(m).len() as int;
            let b = decimal(n).len() as int;
            &&& between(m, n).len() == a + b + 3
            &&& ds.subrange(pos + 1, pos + 1 + a) == decimal(m)
            &&& ds[pos + 1 + a] == ','
            &&& ds.subrange(pos + 2 + a, pos + 2 + a + b) == decimal(n)
            &&& ds[pos + 2 + a + b] == '}'
        }),
{
    let w = between(m, n);
    let d = decimal(m);
    let e = decimal(n);
    let a = d.len() as int;
    let b = e.len() as int;
    let part = ds.subrange(pos, pos + w.len());
    assert(part[1 + a] == ',' && part[2 + a + b] == '}');
    assert(ds.subrange(pos + 1, pos + 1 + a) =~= d) by {
        assert forall|k: int| 0 <= k < a implies ds[pos + 1 + k] == #[trigger] d[k] by {
            assert(part[1 + k] == d[k]);
        }
    }
    assert(ds.subrange(pos + 2 + a, pos + 2 + a + b) =~= e) by {
        assert forall|k: int| 0 <= k < b implies ds[pos + 2 + a + k] == #[trigger] e[k] by {
            assert(part[2 + a + k] == e[k]);
        }
    }
}

/// `{m}` behind a part repeats it `m` times.
proof fn lemma_exactly(ds: Seq<char>, pos: int, m: nat, p: Pat)
    requires
        0 <= pos,
        pos + exactly(m).len() <= ds.len(),
        ds.subrange(pos, pos + exactly(m).len()) == exactly(m),
        m <= usize::MAX,
    ensures
        brace_at(ds, pos, p) == Ok::<(Pat, int), (Seq<char>, int)>(
            (Pat::Rep(Box::new(p), m, m), pos + exactly(m).len()),
        ),
{
    lemma_exactly_text(ds, pos, m);
    lemma_number_at(ds, pos + 1, m);
}

/// `{m,}` behind a part repeats it at least `m` times.
proof fn lemma_at_least(ds: Seq<char>, pos: int, m: nat, p: Pat)
    requires
        0 <= pos,
        pos + at_least(m).len() <= ds.len(),
        ds.subrange(pos, pos + at_least(m).len()) == at_least(m),
        m + 255 <= usize::MAX,
    ensures
        brace_at(ds, pos, p) == Ok::<(Pat, int), (Seq<char>, int)>(
            (Pat::Rep(Box::new(p), m, m + 255), pos + at_least(m).len()),
        ),
{
    let n = decimal(m).len() as int;
    lemma_at_least_text(ds, pos, m);
    lemma_number_at(ds, pos + 1, m);
    assert(digits_end(ds, pos + 2 + n) == pos + 2 + n);
}

/// `{m,n}` behind a part repeats it from `m` to `n` times.
proof fn lemma_between(ds: Seq<char>, pos: int, m: nat, n: nat, p: Pat)
    requires
        0 <= pos,
        pos + between(m, n).len() <= ds.len(),
        ds.subrange(pos, pos + between(m, n).len()) == between(m, n),
        m <= usize::MAX,
        n <= usize::MAX,
    ensures
        m <= n ==> brace_at(ds, pos, p) == Ok::<(Pat, int), (Seq<char>, int)>(
            (Pat::Rep(Box::new(p), m, n), pos + between(m, n).len()),
        ),
        m > n ==> brace_at(ds, pos, p) is Err && brace_at(ds, pos, p)->Err_0.0
            == "{m,n} 要求 n>=m"@,
{
    let a = decimal(m).len() as int;
    lemma_between_text(ds, pos, m, n);
    lemma_number_at(ds, pos + 1, m);
    lemma_number_at(ds, pos + 2 + a, n);
}

/// Where bounds in braces follow an atom they apply to it.
proof fn lemma_braced(ds: Seq<char>, pos: int)
    requires
        atom_at(ds, pos) is Ok,
        0 <= atom_at(ds, pos)->Ok_0.1 < ds.len(),
        ds[atom_at(ds, pos)->Ok_0.1] == '{',
    ensures
        rep_at(ds, pos) == brace_at(ds, atom_at(ds, pos)->Ok_0.1, atom_at(ds, pos)->Ok_0.0),
{
}

/// Behind a group `*` stands for any number of matches, `+` for one or more, and `?` for
/// one or none.
pub proof fn law_repeated_group(x: Seq<char>)
    requires
        compiled(x) is Ok,
    ensures
        compiled(seq!['('] + x + seq![')', '*']) == Ok::<Pat, Seq<char>>(
            Pat::Rep(Box::new(compiled(x)->Ok_0), 0, (usize::MAX / 2) as nat),
        ),
        compiled(seq!['('] + x + seq![')', '+']) == Ok::<Pat, Seq<char>>(
            Pat::Rep(Box::new(compiled(x)->Ok_0), 1, (usize::MAX / 2) as nat),
        ),
        compiled(seq!['('] + x + seq![')', '?']) == Ok::<Pat, Seq<char>>(
            Pat::Rep(Box::new(compiled(x)->Ok_0), 0, 1),
        ),
{
    lemma_repeated_group(x, '*', 0, (usize::MAX / 2) as nat);
    lemma_repeated_group(x, '+', 1, (usize::MAX / 2) as nat);
    lemma_repeated_group(x, '?', 0, 1);
}

proof fn lemma_repeated_group(x: Seq<char>, c: char, lo: nat, hi: nat)
    requires
        compiled(x) is Ok,
        c == '*' && lo == 0 && hi == usize::MAX / 2 || c == '+' && lo == 1 && hi == usize::MAX / 2
            || c == '?' && lo == 0 && hi == 1,
    ensures
        compiled(seq!['('] + x + seq![')', c]) == Ok::<Pat, Seq<char>>(
            Pat::Rep(Box::new(compiled(x)->Ok_0), lo, hi),
        ),
{
    let ds = seq!['('] + x + seq![')', c];
    let n = x.len() as int;
    assert(ds.subrange(1, 1 + n) =~= x);
    assert(ds[n + 1] == ')' && ds[n + 2] == c);
    lemma_group_at(x, ds, 0);
    lemma_single_part(ds, Pat::Rep(Box::new(compiled(x)->Ok_0), lo, hi));
}

/// Behind a group `{m}` stands for `m` matches, `{m,}` for at least `m` and at most 255
/// more, and `{m,n}` for at least `m` and at most `n`. Bounds the wrong way round are
/// refused.
pub proof fn law_counted_group(x: Seq<char>, m: nat, n: nat)
    requires
        compiled(x) is Ok,
        m + 255 <= usize::MAX,
        n <= usize::MAX,
    ensures
        compiled(seq!['('] + x + seq![')'] + exactly(m)) == Ok::<Pat, Seq<char>>(
            Pat::Rep(Box::new(compiled(x)->Ok_0), m, m),
        ),
        compiled(seq!['('] + x + seq![')'] + at_least(m)) == Ok::<Pat, Seq<char>>(
            Pat::Rep(Box::new(compiled(x)->Ok_0), m, m + 255),
        ),
        m <= n ==> compiled(seq!['('] + x + seq![')'] + between(m, n)) == Ok::<Pat, Seq<char>>(
            Pat::Rep(Box::new(compiled(x)->Ok_0), m, n),
        ),
        m > n ==> compiled(seq!['('] + x + seq![')'] + between(m, n)) == Err::<Pat, Seq<char>>(
            "{m,n} 要求 n>=m"@,
        ),
{
    lemma_group_exactly(x, m);
    lemma_group_at_least(x, m);
    lemma_group_between(x, m, n);
}

proof fn lemma_group_exactly(x: Seq<char>, m: nat)
    requires
        compiled(x) is Ok,
        m <= usize::MAX,
    ensures
        compiled(seq!['('] + x + seq![')'] + exactly(m)) == Ok::<Pat, Seq<char>>(
            Pat::Rep(Box::new(compiled(x)->Ok_0), m, m),
        ),
{
    let p = compiled(x)->Ok_0;
    lemma_braced_group(x, exactly(m));
    let ds = seq!['('] + x + seq![')'] + exactly(m);
    lemma_exactly(ds, x.len() as int + 2, m, p);
    lemma_single_part(ds, Pat::Rep(Box::new(p), m, m));
}

proof fn lemma_group_at_least(x: Seq<char>, m: nat)
    requires
        compiled(x) is Ok,
        m + 255 <= usize::MAX,
    ensures
        compiled(seq!['('] + x + seq![')'] + at_least(m)) == Ok::<Pat, Seq<char>>(
            Pat::Rep(Box::new(compiled(x)->Ok_0), m, m + 255),
        ),
{
    let p = compiled(x)->Ok_0;
    lemma_braced_group(x, at_least(m));
    let ds = seq!['('] + x + seq![')'] + at_least(m);
    lemma_at_least(ds, x.len() as int + 2, m, p);
    lemma_single_part(ds, Pat::Rep(Box::new(p), m, m + 255));
}

proof fn lemma_group_between(x: Seq<char>, m: nat, n: nat)
    requires
        compiled(x) is Ok,
        m <= usize::MAX,
        n <= usize::MAX,
    ensures
        m <= n ==> compiled(seq!['('] + x + seq![')'] + between(m, n)) == Ok::<Pat, Seq<char>>(
            Pat::Rep(Box::new(compiled(x)->Ok_0), m, n),
        ),
        m > n ==> compiled(seq!['('] + x + seq![')'] + between(m, n)) == Err::<Pat, Seq<char>>(
            "{m,n} 要求 n>=m"@,
        ),
{
    let p = compiled(x)->Ok_0;
    lemma_braced_group(x, between(m, n));
    let ds = seq!['('] + x + seq![')'] + between(m, n);
    lemma_between(ds, x.len() as int + 2, m, n, p);
    if m <= n {
        lemma_single_part(ds, Pat::Rep(Box::new(p), m, n));
    } else {
        lemma_refused_part(ds, "{m,n} 要求 n>=m"@);
    }
}

proof fn lemma_group_text(x: Seq<char>, w: Seq<char>)
    requires
        w.len() > 0,
    ensures
        ({
            let ds = seq!['('] + x + seq![')'] + w;
            let at = x.len() as int + 2;
            &&& ds.len() == at + w.len()
            &&& ds[0] == '('
            &&& ds.subrange(1, 1 + x.len() as int) == x
            &&& ds[x.len() as int + 1] == ')'
            &&& ds[at] == w[0]
            &&& ds.subrange(at, at + w.len()) == w
        }),
{
    let ds = seq!['('] + x + seq![')'] + w;
    let n = x.len() as int;
    assert(ds.subrange(1, 1 + n) =~= x);
    assert(ds.subrange(n + 2, n + 2 + w.len()) =~= w);
}

proof fn lemma_braced_group(x: Seq<char>, w: Seq<char>)
    requires
        compiled(x) is Ok,
        w.len() > 0,
        w[0] == '{',
    ensures
        ({
            let ds = seq!['('] + x + seq![')'] + w;
            let at = x.len() as int + 2;
            &&& ds.len() == at + w.len()
            &&& ds[0] == '('
            &&& ds.subrange(at, at + w.len()) == w
            &&& rep_at(ds, 0) == brace_at(ds, at, compiled(x)->Ok_0)
        }),
{
    let ds = seq!['('] + x + seq![')'] + w;
    lemma_group_text(x, w);
    lemma_group_at(x, ds, 0);
    lemma_braced(ds, 0);
}

/// Behind an atom `{m}` stands for `m` matches, `{m,}` for at least `m` and at most 255
/// more, and `{m,n}` for at least `m` and at most `n`.
pub proof fn law_counted_atom(x: Seq<char>, p: Pat, m: nat, n: nat)
    requires
        x.len() > 0,
        x[0] != ')',
        x[0] != '|',
        atom_at(x, 0) == Ok::<(Pat, int), (Seq<char>, int)>((p, x.len() as int)),
        m + 255 <= usize::MAX,
        m <= n <= usize::MAX,
    ensures
        compiled(x + exactly(m)) == Ok::<Pat, Seq<char>>(Pat::Rep(Box::new(p), m, m)),
        compiled(x + at_least(m)) == Ok::<Pat, Seq<char>>(Pat::Rep(Box::new(p), m, m + 255)),
        compiled(x + between(m, n)) == Ok::<Pat, Seq<char>>(Pat::Rep(Box::new(p), m, n)),
{
    lemma_atom_exactly(x, p, m);
    lemma_atom_at_least(x, p, m);
    lemma_atom_between(x, p, m, n);
}

proof fn lemma_atom_exactly(x: Seq<char>, p: Pat, m: nat)
    requires
        x.len() > 0,
        x[0] != ')',
        x[0] != '|',
        atom_at(x, 0) == Ok::<(Pat, int), (Seq<char>, int)>((p, x.len() as int)),
        m <= usize::MAX,
    ensures
        compiled(x + exactly(m)) == Ok::<Pat, Seq<char>>(Pat::Rep(Box::new(p), m, m)),
{
    let ds = x + exactly(m);
    lemma_braced_atom(x, p, exactly(m));
    lemma_exactly(ds, x.len() as int, m, p);
    lemma_single_part(ds, Pat::Rep(Box::new(p), m, m));
}

proof fn lemma_atom_at_least(x: Seq<char>, p: Pat, m: nat)
    requires
        x.len() > 0,
        x[0] != ')',
        x[0] != '|',
        atom_at(x, 0) == Ok::<(Pat, int), (Seq<char>, int)>((p, x.len() as int)),
        m + 255 <= usize::MAX,
    ensures
        compiled(x + at_least(m)) == Ok::<Pat, Seq<char>>(Pat::Rep(Box::new(p), m, m + 255)),
{
    let ds = x + at_least(m);
    lemma_braced_atom(x, p, at_least(m));
    lemma_at_least(ds, x.len() as int, m, p);
    lemma_single_part(ds, Pat::Rep(Box::new(p), m, m + 255));
}

proof fn lemma_atom_between(x: Seq<char>, p: Pat, m: nat, n: nat)
    requires
        x.len() > 0,
        x[0] != ')',
        x[0] != '|',
        atom_at(x, 0) == Ok::<(Pat, int), (Seq<char>, int)>((p, x.len() as int)),
        m <= n <= usize::MAX,
    ensures
        compiled(x + between(m, n)) == Ok::<Pat, Seq<char>>(Pat::Rep(Box::new(p), m, n)),
{
    let ds = x + between(m, n);
    lemma_braced_atom(x, p, between(m, n));
    lemma_between(ds, x.len() as int, m, n, p);
    lemma_single_part(ds, Pat::Rep(Box::new(p), m, n));
}

proof fn lemma_braced_atom(x: Seq<char>, p: Pat, w: Seq<char>)
    requires
        x.len() > 0,
        atom_at(x, 0) == Ok::<(Pat, int), (Seq<char>, int)>((p, x.len() as int)),
        w.len() > 0,
        w[0] == '{',
    ensures
        ({
            let ds = x + w;
            let at = x.len() as int;
            &&& ds.len() == at + w.len()
            &&& ds[0] == x[0]
            &&& ds.subrange(at, at + w.len()) == w
            &&& rep_at(ds, 0) == brace_at(ds, at, p)
        }),
{
    let ds = x + w;
    assert(ds.subrange(x.len() as int, x.len() as int + w.len()) =~= w);
    assert(ds[x.len() as int] == w[0]);
    lemma_atom_before(x, p, w);
    lemma_braced(ds, 0);
}

/// Bounds need a number and a closing brace, and the number must not be too large. An open
/// bound ends with the largest number there is.
pub proof fn law_refused_bounds(x: Seq<char>, m: nat, rest: Seq<char>)
    requires
        compiled(x) is Ok,
    ensures
        rest.len() == 0 || !('0' <= rest[0] && rest[0] <= '9') ==> compiled(
            seq!['('] + x + seq![')'] + (seq!['{'] + rest),
        ) == Err::<Pat, Seq<char>>("期望数字"@),
        m > usize::MAX ==> compiled(seq!['('] + x + seq![')'] + exactly(m)) == Err::<
            Pat,
            Seq<char>,
        >("数字过大"@),
        m <= usize::MAX && rest.len() > 0 && !('0' <= rest[0] && rest[0] <= '9') && rest[0] != ','
            && rest[0] != '}' ==> compiled(
            seq!['('] + x + seq![')'] + (seq!['{'] + decimal(m) + rest),
        ) == Err::<Pat, Seq<char>>("缺少 }"@),
        m <= usize::MAX && m + 255 > usize::MAX ==> compiled(
            seq!['('] + x + seq![')'] + at_least(m),
        ) == Ok::<Pat, Seq<char>>(Pat::Rep(Box::new(compiled(x)->Ok_0), m, usize::MAX as nat)),
{
    lemma_no_bound(x, rest);
    lemma_large_bound(x, m);
    lemma_open_brace(x, m, rest);
    lemma_largest_bound(x, m);
}

proof fn lemma_refused_part(ds: Seq<char>, message: Seq<char>)
    requires
        ds.len() > 0,
        ds[0] == '(',
        rep_at(ds, 0) is Err,
        rep_at(ds, 0)->Err_0.0 == message,
    ensures
        compiled(ds) == Err::<Pat, Seq<char>>(message),
{
    assert(cat_more(ds, 0, seq![]) == rep_at(ds, 0));
}

proof fn lemma_no_bound(x: Seq<char>, rest: Seq<char>)
    requires
        compiled(x) is Ok,
    ensures
        rest.len() == 0 || !('0' <= rest[0] && rest[0] <= '9') ==> compiled(
            seq!['('] + x + seq![')'] + (seq!['{'] + rest),
        ) == Err::<Pat, Seq<char>>("期望数字"@),
{
    let w = seq!['{'] + rest;
    lemma_braced_group(x, w);
    let ds = seq!['('] + x + seq![')'] + w;
    let at = x.len() as int + 2;
    if rest.len() == 0 || !('0' <= rest[0] && rest[0] <= '9') {
        if rest.len() > 0 {
            assert(ds[at + 1] == rest[0]);
        }
        assert(digits_end(ds, at + 1) == at + 1);
        lemma_refused_part(ds, "期望数字"@);
    }
}

proof fn lemma_large_bound(x: Seq<char>, m: nat)
    requires
        compiled(x) is Ok,
    ensures
        m > usize::MAX ==> compiled(seq!['('] + x + seq![')'] + exactly(m)) == Err::<
            Pat,
            Seq<char>,
        >("数字过大"@),
{
    lemma_braced_group(x, exactly(m));
    let ds = seq!['('] + x + seq![')'] + exactly(m);
    let at = x.len() as int + 2;
    if m > usize::MAX {
        lemma_exactly_text(ds, at, m);
        lemma_number_at(ds, at + 1, m);
        lemma_refused_part(ds, "数字过大"@);
    }
}

proof fn lemma_open_brace(x: Seq<char>, m: nat, rest: Seq<char>)
    requires
        compiled(x) is Ok,
    ensures
        m <= usize::MAX && rest.len() > 0 && !('0' <= rest[0] && rest[0] <= '9') && rest[0] != ','
            && rest[0] != '}' ==> compiled(
            seq!['('] + x + seq![')'] + (seq!['{'] + decimal(m) + rest),
        ) == Err::<Pat, Seq<char>>("缺少 }"@),
{
    let w = seq!['{'] + decimal(m) + rest;
    lemma_braced_group(x, w);
    let ds = seq!['('] + x + seq![')'] + w;
    let at = x.len() as int + 2;
    if m <= usize::MAX && rest.len() > 0 && !('0' <= rest[0] && rest[0] <= '9') && rest[0] != ','
        && rest[0] != '}' {
        let n = decimal(m).len() as int;
        assert(ds.subrange(at + 1, at + 1 + n) =~= decimal(m));
        assert(ds[at + 1 + n] == rest[0]);
        lemma_number_at(ds, at + 1, m);
        lemma_refused_part(ds, "缺少 }"@);
    }
}

proof fn lemma_largest_bound(x: Seq<char>, m: nat)
    requires
        compiled(x) is Ok,
    ensures
        m <= usize::MAX && m + 255 > usize::MAX ==> compiled(
            seq!['('] + x + seq![')'] + at_least(m),
        ) == Ok::<Pat, Seq<char>>(Pat::Rep(Box::new(compiled(x)->Ok_0), m, usize::MAX as nat)),
{
    lemma_braced_group(x, at_least(m));
    let ds = seq!['('] + x + seq![')'] + at_least(m);
    let at = x.len() as int + 2;
    if m <= usize::MAX && m + 255 > usize::MAX {
        let n = decimal(m).len() as int;
        lemma_at_least_text(ds, at, m);
        lemma_number_at(ds, at + 1, m);
        assert(digits_end(ds, at + 2 + n) == at + 2 + n);
        lemma_single_part(ds, Pat::Rep(Box::new(compiled(x)->Ok_0), m, usize::MAX as nat));
    }
}

/// No match of a repetition advances nothing. At least one more match than `lo` and at
/// most one more than `hi` are from `lo` to `hi` matches and then one that advances.
pub proof fn law_rounds(p: Pat, lo: nat, hi: nat, cs: Seq<char>, i: int, j: int)
    ensures
        spans(Pat::Rep(Box::new(p), 0, 0), cs, i, j) <==> i == j,
        spans(Pat::Rep(Box::new(p), lo + 1, hi + 1), cs, i, j) <==> exists|k: int| #[trigger]
            cut(k) && spans(Pat::Rep(Box::new(p), lo, hi), cs, i, k) && k != j && spans(
                p,
                cs,
                k,
                j,
            ),
{
    let none = Pat::Rep(Box::new(p), 0, 0);
    let less = Pat::Rep(Box::new(p), lo, hi);
    let more = Pat::Rep(Box::new(p), lo + 1, hi + 1);
    assert(cut(0nat as int));
    if i == j {
        assert(spans_times(p, cs, 0, i, j));
    }
    if spans(none, cs, i, j) {
        let n = choose|n: nat| #[trigger]
            cut(n as int) && 0 <= n <= 0 && spans_times(p, cs, n, i, j);
        assert(spans_times(p, cs, 0, i, j));
    }
    if spans(more, cs, i, j) {
        let n = choose|n: nat| #[trigger]
            cut(n as int) && lo + 1 <= n <= hi + 1 && spans_times(p, cs, n, i, j);
        let k = choose|k: int| #[trigger]
            cut(k) && spans_times(p, cs, (n - 1) as nat, i, k) && k != j && spans(p, cs, k, j);
        assert(cut((n - 1) as nat as int));
        assert(spans(less, cs, i, k));
        assert(cut(k));
    }
    if exists|k: int| #[trigger] cut(k) && spans(less, cs, i, k) && k != j && spans(p, cs, k, j) {
        let k = choose|k: int| #[trigger]
            cut(k) && spans(less, cs, i, k) && k != j && spans(p, cs, k, j);
        let n = choose|n: nat| #[trigger]
            cut(n as int) && lo <= n <= hi && spans_times(p, cs, n, i, k);
        assert(((n + 1) - 1) as nat == n);
        assert(cut(k));
        assert(spans_times(p, cs, n + 1, i, j));
        assert(cut((n + 1) as int));
    }
}

/// From `lo` to `hi` matches are exactly `lo`, or more up to `hi`.
pub proof fn law_bounds(p: Pat, lo: nat, hi: nat, cs: Seq<char>, i: int, j: int)
    ensures
        lo <= hi ==> (spans(Pat::Rep(Box::new(p), lo, hi), cs, i, j) <==> spans(
            Pat::Rep(Box::new(p), lo, lo),
            cs,
            i,
            j,
        ) || spans(Pat::Rep(Box::new(p), lo + 1, hi), cs, i, j)),
        lo > hi ==> !spans(Pat::Rep(Box::new(p), lo, hi), cs, i, j),
{
    let all = Pat::Rep(Box::new(p), lo, hi);
    let one = Pat::Rep(Box::new(p), lo, lo);
    let more = Pat::Rep(Box::new(p), lo + 1, hi);
    if spans(all, cs, i, j) {
        let n = choose|n: nat| #[trigger]
            cut(n as int) && lo <= n <= hi && spans_times(p, cs, n, i, j);
        if n == lo {
            assert(cut(n as int));
            assert(spans(one, cs, i, j));
        } else {
            assert(cut(n as int));
            assert(spans(more, cs, i, j));
        }
    }
    if lo <= hi && spans(one, cs, i, j) {
        let n = choose|n: nat| #[trigger]
            cut(n as int) && lo <= n <= lo && spans_times(p, cs, n, i, j);
        assert(cut(n as int));
    }
    if spans(more, cs, i, j) {
        let n = choose|n: nat| #[trigger]
            cut(n as int) && lo + 1 <= n <= hi && spans_times(p, cs, n, i, j);
        assert(cut(n as int));
    }
}

/// What the single parts of an expression match.
pub proof fn law_units(c: char, rs: Seq<(char, char)>, cs: Seq<char>, i: int, j: int)
    requires
        0 <= i <= cs.len(),
    ensures
        spans(Pat::Empty, cs, i, j) <==> j == i,
        spans(Pat::Lit(c), cs, i, j) <==> i < cs.len() && cs[i] == c && j == i + 1,
        spans(Pat::Dot, cs, i, j) <==> i < cs.len() && j == i + 1,
        spans(Pat::Class { neg: false, rs }, cs, i, j) <==> i < cs.len() && j == i + 1 && exists|
            k: int,
        |
            0 <= k < rs.len() && (#[trigger] rs[k]).0 <= cs[i] && cs[i] <= rs[k].1,
        spans(Pat::Class { neg: true, rs }, cs, i, j) <==> i < cs.len() && j == i + 1 && !exists|
            k: int,
        |
            0 <= k < rs.len() && (#[trigger] rs[k]).0 <= cs[i] && cs[i] <= rs[k].1,
        spans(Pat::Begin, cs, i, j) <==> i == 0 && j == 0,
        spans(Pat::End, cs, i, j) <==> i == cs.len() && j == i,
{
}

/// An expression is found in a text where it matches from some place in it on.
pub proof fn law_found(p: Pat, cs: Seq<char>)
    ensures
        found_in(p, cs) <==> exists|i: int, j: int|
            0 <= i <= cs.len() && #[trigger] spans(p, cs, i, j),
{
}

/// A character between `^` and `$` with `*`, `+` or `?` behind it is found in the texts that
/// are made of the character alone: any number of times, at least once, or at most once.
pub proof fn law_repeated_character(c: char, text: Seq<char>)
    requires
        c != '*' && c != '+' && c != '?' && c != '{' && c != '|' && c != '(' && c != ')' && c != '['
            && c != '.' && c != '^' && c != '$' && c != '\\',
        text.len() <= usize::MAX / 2,
    ensures
        compiled(seq!['^', c] + seq!['*'] + seq!['$']) is Ok,
        found_in(compiled(seq!['^', c] + seq!['*'] + seq!['$'])->Ok_0, text) <==> forall|k: int|
            0 <= k < text.len() ==> #[trigger] text[k] == c,
        compiled(seq!['^', c] + seq!['+'] + seq!['$']) is Ok,
        found_in(compiled(seq!['^', c] + seq!['+'] + seq!['$'])->Ok_0, text) <==> text.len() >= 1
            && forall|k: int| 0 <= k < text.len() ==> #[trigger] text[k] == c,
        compiled(seq!['^', c] + seq!['?'] + seq!['$']) is Ok,
        found_in(compiled(seq!['^', c] + seq!['?'] + seq!['$'])->Ok_0, text) <==> text.len() <= 1
            && forall|k: int| 0 <= k < text.len() ==> #[trigger] text[k] == c,
{
    let half = (usize::MAX / 2) as nat;
    lemma_marked(c, '*', 0, half, text);
    lemma_marked(c, '+', 1, half, text);
    lemma_marked(c, '?', 0, 1, text);
}

/// A character between `^` and `$` with `{m}` behind it is found in the text that is made of
/// `m` times the character, and no other.
pub proof fn law_character_exactly(c: char, text: Seq<char>, m: nat)
    requires
        c != '*' && c != '+' && c != '?' && c != '{' && c != '|' && c != '(' && c != ')' && c != '['
            && c != '.' && c != '^' && c != '$' && c != '\\',
        m <= usize::MAX,
    ensures
        compiled(seq!['^', c] + exactly(m) + seq!['$']) is Ok,
        found_in(compiled(seq!['^', c] + exactly(m) + seq!['$'])->Ok_0, text) <==> text.len() == m
            && forall|k: int| 0 <= k < text.len() ==> #[trigger] text[k] == c,
{
    let ds = seq!['^', c] + exactly(m) + seq!['$'];
    lemma_counted(c, exactly(m));
    lemma_exactly(ds, 2, m, Pat::Lit(c));
    lemma_framed_part(ds, c, m, m, text);
}

/// A character between `^` and `$` with `{m,}` behind it is found in the texts that are made
/// of the character alone, `m` times and up to 255 times more.
pub proof fn law_character_at_least(c: char, text: Seq<char>, m: nat)
    requires
        c != '*' && c != '+' && c != '?' && c != '{' && c != '|' && c != '(' && c != ')' && c != '['
            && c != '.' && c != '^' && c != '$' && c != '\\',
        m + 255 <= usize::MAX,
    ensures
        compiled(seq!['^', c] + at_least(m) + seq!['$']) is Ok,
        found_in(compiled(seq!['^', c] + at_least(m) + seq!['$'])->Ok_0, text) <==> m <= text.len()
            <= m + 255 && forall|k: int| 0 <= k < text.len() ==> #[trigger] text[k] == c,
{
    let ds = seq!['^', c] + at_least(m) + seq!['$'];
    lemma_counted(c, at_least(m));
    lemma_at_least(ds, 2, m, Pat::Lit(c));
    lemma_framed_part(ds, c, m, m + 255, text);
}

/// A character between `^` and `$` with `{m,n}` behind it is found in the texts that are
/// made of the character alone, from `m` to `n` times.
pub proof fn law_character_between(c: char, text: Seq<char>, m: nat, n: nat)
    requires
        c != '*' && c != '+' && c != '?' && c != '{' && c != '|' && c != '(' && c != ')' && c != '['
            && c != '.' && c != '^' && c != '$' && c != '\\',
        m <= n <= usize::MAX,
    ensures
        compiled(seq!['^', c] + between(m, n) + seq!['$']) is Ok,
        found_in(compiled(seq!['^', c] + between(m, n) + seq!['$'])->Ok_0, text) <==> m
            <= text.len() <= n && forall|k: int| 0 <= k < text.len() ==> #[trigger] text[k] == c,
{
    let ds = seq!['^', c] + between(m, n) + seq!['$'];
    lemma_counted(c, between(m, n));
    lemma_between(ds, 2, m, n, Pat::Lit(c));
    lemma_framed_part(ds, c, m, n, text);
}

spec fn is_bare(c: char) -> bool {
    c != '*' && c != '+' && c != '?' && c != '{' && c != '|' && c != '(' && c != ')' && c != '['
        && c != '.' && c != '^' && c != '$' && c != '\\'
}

proof fn lemma_marked(c: char, q: char, lo: nat, hi: nat, text: Seq<char>)
    requires
        is_bare(c),
        q == '*' && lo == 0 && hi == usize::MAX / 2 || q == '+' && lo == 1 && hi == usize::MAX / 2
            || q == '?' && lo == 0 && hi == 1,
    ensures
        ({
            let ds = seq!['^', c] + seq![q] + seq!['$'];
            &&& compiled(ds) is Ok
            &&& found_in(compiled(ds)->Ok_0, text) <==> lo <= text.len() <= hi && forall|k: int|
                0 <= k < text.len() ==> #[trigger] text[k] == c
        }),
{
    let ds = seq!['^', c] + seq![q] + seq!['$'];
    assert(ds[0] == '^' && ds[1] == c && ds[2] == q && ds[3] == '$');
    assert(atom_at(ds, 1) == Ok::<(Pat, int), (Seq<char>, int)>((Pat::Lit(c), 2)));
    lemma_framed_part(ds, c, lo, hi, text);
}

proof fn lemma_counted(c: char, w: Seq<char>)
    requires
        is_bare(c),
        w.len() > 0,
        w[0] == '{',
    ensures
        ({
            let ds = seq!['^', c] + w + seq!['$'];
            &&& ds.len() == w.len() + 3
            &&& ds[0] == '^'
            &&& ds[1] == c
            &&& ds.last() == '$'
            &&& ds.subrange(2, 2 + w.len() as int) == w
            &&& rep_at(ds, 1) == brace_at(ds, 2, Pat::Lit(c))
        }),
{
    let ds = seq!['^', c] + w + seq!['$'];
    assert(ds[0] == '^' && ds[1] == c && ds[2] == w[0]);
    assert(ds.subrange(2, 2 + w.len() as int) =~= w);
    assert(atom_at(ds, 1) == Ok::<(Pat, int), (Seq<char>, int)>((Pat::Lit(c), 2)));
    lemma_braced(ds, 1);
}

/// A repeated character between `^` and `$`.
proof fn lemma_framed_part(ds: Seq<char>, c: char, lo: nat, hi: nat, text: Seq<char>)
    requires
        is_bare(c),
        ds.len() >= 3,
        ds[0] == '^',
        ds[1] == c,
        ds.last() == '$',
        rep_at(ds, 1) == Ok::<(Pat, int), (Seq<char>, int)>(
            (Pat::Rep(Box::new(Pat::Lit(c)), lo, hi), ds.len() - 1),
        ),
    ensures
        compiled(ds) is Ok,
        found_in(compiled(ds)->Ok_0, text) <==> lo <= text.len() <= hi && forall|k: int|
            0 <= k < text.len() ==> #[trigger] text[k] == c,
{
    let p = Pat::Rep(Box::new(Pat::Lit(c)), lo, hi);
    let end = ds.len() - 1;
    assert(ds[end] == '$');
    assert(atom_at(ds, 0) == Ok::<(Pat, int), (Seq<char>, int)>((Pat::Begin, 1)));
    assert(rep_at(ds, 0) == atom_at(ds, 0));
    assert(atom_at(ds, end) == Ok::<(Pat, int), (Seq<char>, int)>((Pat::End, end + 1)));
    assert(rep_at(ds, end) == atom_at(ds, end));
    let none = Seq::<Pat>::empty();
    let one = none.push(Pat::Begin);
    let two = one.push(p);
    let three = two.push(Pat::End);
    assert(cat_more(ds, 0, none) == cat_more(ds, 1, one));
    assert(cat_more(ds, 1, one) == cat_more(ds, end, two));
    assert(cat_more(ds, end, two) == cat_more(ds, end + 1, three));
    assert(cat_more(ds, end + 1, three) == Ok::<(Pat, int), (Seq<char>, int)>(
        (Pat::Cat(three), end + 1),
    ));
    assert(alt_at(ds, 0) == alt_more(ds, end + 1, seq![Pat::Cat(three)]));
    assert(compiled(ds) == Ok::<Pat, Seq<char>>(Pat::Cat(three)));
    lemma_framed_found(p, text);
    assert(three =~= seq![Pat::Begin, p, Pat::End]);
    lemma_same_characters(c, lo, hi, text);
}

proof fn lemma_framed_found(p: Pat, text: Seq<char>)
    ensures
        found_in(Pat::Cat(seq![Pat::Begin, p, Pat::End]), text) <==> spans(
            p,
            text,
            0,
            text.len() as int,
        ),
{
    let three = seq![Pat::Begin, p, Pat::End];
    let two = seq![Pat::Begin, p];
    let one = seq![Pat::Begin];
    let none = Seq::<Pat>::empty();
    assert(three.drop_last() =~= two);
    assert(two.drop_last() =~= one);
    assert(one.drop_last() =~= none);
    let whole = Pat::Cat(three);
    let n = text.len() as int;
    assert(cut(0) && cut(n));
    if spans(p, text, 0, n) {
        assert(spans_all(none, text, 0, 0));
        assert(spans(Pat::Begin, text, 0, 0));
        assert(cut(0) && spans_all(one.drop_last(), text, 0, 0) && spans(one.last(), text, 0, 0));
        assert(cut(0) && spans_all(two.drop_last(), text, 0, 0) && spans(two.last(), text, 0, n));
        assert(spans(Pat::End, text, n, n));
        assert(cut(n) && spans_all(three.drop_last(), text, 0, n) && spans(
            three.last(),
            text,
            n,
            n,
        ));
        assert(spans_all(three, text, 0, n));
        assert(spans(whole, text, 0, n) == spans_all(three, text, 0, n));
    }
    if found_in(whole, text) {
        let (i, j) = choose|i: int, j: int| 0 <= i <= text.len() && #[trigger] spans(whole, text, i, j);
        assert(spans_all(three, text, i, j));
        let k = choose|k: int| #[trigger]
            cut(k) && spans_all(three.drop_last(), text, i, k) && spans(three.last(), text, k, j);
        let b = choose|b: int| #[trigger]
            cut(b) && spans_all(two.drop_last(), text, i, b) && spans(two.last(), text, b, k);
        let a = choose|a: int| #[trigger]
            cut(a) && spans_all(one.drop_last(), text, i, a) && spans(one.last(), text, a, b);
        assert(b == 0 && k == n);
    }
}

proof fn lemma_same_characters(c: char, lo: nat, hi: nat, text: Seq<char>)
    ensures
        spans(Pat::Rep(Box::new(Pat::Lit(c)), lo, hi), text, 0, text.len() as int) <==> lo
            <= text.len() <= hi && forall|k: int|
            0 <= k < text.len() ==> #[trigger] text[k] == c,
{
    let p = Pat::Rep(Box::new(Pat::Lit(c)), lo, hi);
    let n = text.len();
    if spans(p, text, 0, n as int) {
        let r = choose|r: nat| #[trigger]
            cut(r as int) && lo <= r <= hi && spans_times(Pat::Lit(c), text, r, 0, n as int);
        lemma_times_of(c, r, text, n as int);
    }
    if lo <= n <= hi && forall|k: int| 0 <= k < n ==> #[trigger] text[k] == c {
        lemma_times_of(c, n, text, n as int);
        assert(cut(n as int));
    }
}

proof fn lemma_times_of(c: char, r: nat, text: Seq<char>, j: int)
    requires
        0 <= j <= text.len(),
    ensures
        spans_times(Pat::Lit(c), text, r, 0, j) <==> j == r && forall|k: int|
            0 <= k < j ==> #[trigger] text[k] == c,
    decreases r,
{
    let p = Pat::Lit(c);
    if r > 0 {
        let less = (r - 1) as nat;
        if spans_times(p, text, r, 0, j) {
            let k = choose|k: int| #[trigger]
                cut(k) && spans_times(p, text, less, 0, k) && k != j && spans(p, text, k, j);
            lemma_times_of(c, less, text, k);
        }
        if j == r && forall|k: int| 0 <= k < j ==> #[trigger] text[k] == c {
            lemma_times_of(c, less, text, j - 1);
            assert(cut(j - 1));
            assert(text[j - 1] == c);
            assert(spans(p, text, j - 1, j));
        }
    }
}

/// The ends of two lists of branches are those of the first and then those of the second;
/// those of one branch are its own.
pub proof fn law_ends_of_branches(ps: Seq<Pat>, qs: Seq<Pat>, p: Pat, cs: Seq<char>, i: usize)
    ensures
        ends(Pat::Alt(ps + qs), cs, i) == ends(Pat::Alt(ps), cs, i) + ends(Pat::Alt(qs), cs, i),
        ends(Pat::Alt(seq![p]), cs, i) == ends(p, cs, i),
    decreases qs.len(),
{
    let one = seq![p];
    let none = Seq::<Pat>::empty();
    assert(one.drop_last() =~= none);
    assert(crate::regex::ends_of_each(none, cs, i) =~= Seq::<usize>::empty());
    assert(crate::regex::ends_of_each(one, cs, i) == crate::regex::ends_of_each(
        one.drop_last(),
        cs,
        i,
    ) + ends(one.last(), cs, i));
    assert(ends(Pat::Alt(one), cs, i) =~= ends(p, cs, i));
    let all = ps + qs;
    if qs.len() == 0 {
        assert(all =~= ps);
        assert(ends(Pat::Alt(ps), cs, i) + ends(Pat::Alt(qs), cs, i) =~= ends(
            Pat::Alt(ps),
            cs,
            i,
        ));
    } else {
        law_ends_of_branches(ps, qs.drop_last(), p, cs, i);
        assert(all.drop_last() =~= ps + qs.drop_last());
        assert(all.last() == qs.last());
        assert(crate::regex::ends_of_each(all, cs, i) == crate::regex::ends_of_each(
            all.drop_last(),
            cs,
            i,
        ) + ends(all.last(), cs, i));
        assert(crate::regex::ends_of_each(qs, cs, i) == crate::regex::ends_of_each(
            qs.drop_last(),
            cs,
            i,
        ) + ends(qs.last(), cs, i));
        assert(ends(Pat::Alt(all), cs, i) =~= ends(Pat::Alt(ps), cs, i) + ends(
            Pat::Alt(qs),
            cs,
            i,
        ));
    }
}

} // verus!
