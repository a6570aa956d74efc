//! Regular expressions and where they match: a backtracking matcher that follows
//! all ways of matching at once.

use vstd::prelude::*;

use crate::text::chars_of;

verus! {

/// A regular expression. `Rep` repeats its part at least and at most so many times.
#[derive(Debug)]
pub enum Rx {
    Empty,
    Lit(char),
    Dot,
    Class { neg: bool, rs: Vec<(char, char)> },
    Cat(Vec<Rx>),
    Alt(Vec<Rx>),
    Rep(Box<Rx>, usize, usize),
    Begin,
    End,
}

/// A regular expression as a value.
pub enum Pat {
    Empty,
    Lit(char),
    Dot,
    Class { neg: bool, rs: Seq<(char, char)> },
    Cat(Seq<Pat>),
    Alt(Seq<Pat>),
    Rep(Box<Pat>, nat, nat),
    Begin,
    End,
}

impl Rx {
    /// The expression as a value.
    pub open spec fn pat(&self) -> Pat
        decreases self,
    {
        match *self {
            Rx::Empty => Pat::Empty,
            Rx::Lit(c) => Pat::Lit(c),
            Rx::Dot => Pat::Dot,
            Rx::Class { neg, rs } => Pat::Class { neg, rs: rs@ },
            Rx::Cat(v) => Pat::Cat(pats(v@)),
            Rx::Alt(v) => Pat::Alt(pats(v@)),
            Rx::Rep(inner, lo, hi) => Pat::Rep(Box::new(inner.pat()), lo as nat, hi as nat),
            Rx::Begin => Pat::Begin,
            Rx::End => Pat::End,
        }
    }
}

/// The expressions in a list as values.
pub open spec fn pats(v: Seq<Rx>) -> Seq<Pat>
    decreases v,
{
    Seq::new(
        v.len(),
        |k: int|
            if 0 <= k < v.len() {
                v[k].pat()
            } else {
                Pat::Empty
            },
    )
}

impl View for Rx {
    type V = Pat;

    open spec fn view(&self) -> Pat {
        self.pat()
    }
}

/// `c` lies in one of the ranges.
pub open spec fn in_class(rs: Seq<(char, char)>, c: char) -> bool {
    exists|k: int| 0 <= k < rs.len() && (#[trigger] rs[k]).0 <= c && c <= rs[k].1
}

/// Marks a position or a number of rounds that is spoken of.
pub open spec fn cut(k: int) -> bool {
    true
}

/// `p` matches `cs` from position `i` up to position `j`.
pub open spec fn spans(p: Pat, cs: Seq<char>, i: int, j: int) -> bool
    decreases p, 0nat,
{
    match p {
        Pat::Empty => j == i,
        Pat::Lit(c) => 0 <= i < cs.len() && cs[i] == c && j == i + 1,
        Pat::Dot => 0 <= i < cs.len() && j == i + 1,
        Pat::Class { neg, rs } => 0 <= i < cs.len() && in_class(rs, cs[i]) != neg && j == i + 1,
        Pat::Cat(ps) => spans_all(ps, cs, i, j),
        Pat::Alt(ps) => exists|k: int| #[trigger] cut(k) && 0 <= k < ps.len() && spans(ps[k], cs, i, j),
        Pat::Rep(inner, lo, hi) => exists|n: nat|
            #[trigger] cut(n as int) && lo <= n <= hi && spans_times(*inner, cs, n, i, j),
        Pat::Begin => i == 0 && j == 0,
        Pat::End => i == cs.len() && j == i,
    }
}

/// The parts `ps`, one after the other, match from `i` up to `j`.
pub open spec fn spans_all(ps: Seq<Pat>, cs: Seq<char>, i: int, j: int) -> bool
    decreases ps, 0nat,
{
    if ps.len() == 0 {
        j == i
    } else {
        exists|k: int|
            #[trigger] cut(k) && spans_all(ps.drop_last(), cs, i, k) && spans(ps.last(), cs, k, j)
    }
}

/// `n` matches of `p`, none of them empty, lead from `i` to `j`.
pub open spec fn spans_times(p: Pat, cs: Seq<char>, n: nat, i: int, j: int) -> bool
    decreases p, n,
{
    if n == 0 {
        j == i
    } else {
        exists|k: int|
            #[trigger] cut(k) && spans_times(p, cs, (n - 1) as nat, i, k) && k != j && spans(
                p,
                cs,
                k,
                j,
            )
    }
}

/// A match never ends before it starts, nor beyond the text unless it starts there.
pub proof fn law_match_forward(p: Pat, cs: Seq<char>, i: int, j: int)
    requires
        0 <= i,
        spans(p, cs, i, j),
    ensures
        i <= j,
        j <= cs.len() || j == i,
    decreases p, 0nat,
{
    match p {
        Pat::Cat(ps) => {
            lemma_all_forward(ps, cs, i, j);
        },
        Pat::Alt(ps) => {
            let k = choose|k: int| #[trigger] cut(k) && 0 <= k < ps.len() && spans(ps[k], cs, i, j);
            law_match_forward(ps[k], cs, i, j);
        },
        Pat::Rep(inner, lo, hi) => {
            let n = choose|n: nat|
                #[trigger] cut(n as int) && lo <= n <= hi && spans_times(*inner, cs, n, i, j);
            lemma_times_forward(*inner, cs, n, i, j);
        },
        _ => {},
    }
}

proof fn lemma_all_forward(ps: Seq<Pat>, cs: Seq<char>, i: int, j: int)
    requires
        0 <= i,
        spans_all(ps, cs, i, j),
    ensures
        i <= j,
        j <= cs.len() || j == i,
    decreases ps, 0nat,
{
    if ps.len() > 0 {
        let k = choose|k: int|
            #[trigger] cut(k) && spans_all(ps.drop_last(), cs, i, k) && spans(ps.last(), cs, k, j);
        lemma_all_forward(ps.drop_last(), cs, i, k);
        law_match_forward(ps.last(), cs, k, j);
    }
}

proof fn lemma_times_forward(p: Pat, cs: Seq<char>, n: nat, i: int, j: int)
    requires
        0 <= i,
        spans_times(p, cs, n, i, j),
    ensures
        i + n <= j,
        j <= cs.len() || j == i,
    decreases p, n,
{
    if n > 0 {
        let k = choose|k: int|
            #[trigger] cut(k) && spans_times(p, cs, (n - 1) as nat, i, k) && k != j && spans(
                p,
                cs,
                k,
                j,
            );
        lemma_times_forward(p, cs, (n - 1) as nat, i, k);
        law_match_forward(p, cs, k, j);
    }
}

/// `e` is one of the positions in `out`.
pub open spec fn lists(out: Seq<usize>, e: int) -> bool {
    exists|x: int| 0 <= x < out.len() && #[trigger] out[x] == e
}

/// `es` without the position `x`.
pub open spec fn without(es: Seq<usize>, x: usize) -> Seq<usize>
    decreases es.len(),
{
    if es.len() == 0 {
        seq![]
    } else if es.last() == x {
        without(es.drop_last(), x)
    } else {
        without(es.drop_last(), x).push(es.last())
    }
}

/// `acc` and behind it, in order, the positions of `es` that are not in it yet.
pub open spec fn with_new(acc: Seq<usize>, es: Seq<usize>) -> Seq<usize>
    decreases es.len(),
{
    if es.len() == 0 {
        acc
    } else {
        let front = with_new(acc, es.drop_last());
        if front.contains(es.last()) {
            front
        } else {
            front.push(es.last())
        }
    }
}

/// The positions at which a match of `p` that starts at `i` can end, in the order in
/// which they are tried.
pub open spec fn ends(p: Pat, cs: Seq<char>, i: usize) -> Seq<usize>
    decreases p, 0nat, 0nat,
{
    match p {
        Pat::Empty => seq![i],
        Pat::Lit(c) => if i < cs.len() && cs[i as int] == c {
            seq![(i + 1) as usize]
        } else {
            seq![]
        },
        Pat::Dot => if i < cs.len() {
            seq![(i + 1) as usize]
        } else {
            seq![]
        },
        Pat::Class { neg, rs } => if i < cs.len() && in_class(rs, cs[i as int]) != neg {
            seq![(i + 1) as usize]
        } else {
            seq![]
        },
        Pat::Cat(ps) => ends_of_all(ps, cs, i),
        Pat::Alt(ps) => ends_of_each(ps, cs, i),
        Pat::Rep(inner, lo, hi) => ends_of_rounds(*inner, cs, i, lo, hi),
        Pat::Begin => if i == 0 {
            seq![0usize]
        } else {
            seq![]
        },
        Pat::End => if i == cs.len() {
            seq![i]
        } else {
            seq![]
        },
    }
}

/// The ends of the matches of `p` that start at the positions `from`, one position
/// after the other.
pub open spec fn carry_on(p: Pat, cs: Seq<char>, from: Seq<usize>) -> Seq<usize>
    decreases p, 1nat, from.len(),
{
    if from.len() == 0 {
        seq![]
    } else {
        carry_on(p, cs, from.drop_last()) + ends(p, cs, from.last())
    }
}

/// The ends of the parts `ps` one after the other: each end of a part is carried on.
pub open spec fn ends_of_all(ps: Seq<Pat>, cs: Seq<char>, i: usize) -> Seq<usize>
    decreases ps, 0nat, 0nat,
{
    if ps.len() == 0 {
        seq![i]
    } else {
        carry_on(ps.last(), cs, ends_of_all(ps.drop_last(), cs, i))
    }
}

/// The ends of the branches `ps`, one branch after the other.
pub open spec fn ends_of_each(ps: Seq<Pat>, cs: Seq<char>, i: usize) -> Seq<usize>
    decreases ps, 0nat, 0nat,
{
    if ps.len() == 0 {
        seq![]
    } else {
        ends_of_each(ps.drop_last(), cs, i) + ends(ps.last(), cs, i)
    }
}

/// The positions to which one more match of `p` leads from the positions `from`, each
/// once. A match that advances nothing does not count.
pub open spec fn next_round(p: Pat, cs: Seq<char>, from: Seq<usize>) -> Seq<usize>
    decreases p, 1nat, from.len(),
{
    if from.len() == 0 {
        seq![]
    } else {
        with_new(
            next_round(p, cs, from.drop_last()),
            without(ends(p, cs, from.last()), from.last()),
        )
    }
}

/// The positions to which `n` matches of `p` lead from `i`.
pub open spec fn round(p: Pat, cs: Seq<char>, i: usize, n: nat) -> Seq<usize>
    decreases p, 2nat, n,
{
    if n == 0 {
        seq![i]
    } else {
        next_round(p, cs, round(p, cs, i, (n - 1) as nat))
    }
}

/// The positions to which from `lo` to `hi` matches of `p` lead from `i`, those of
/// the most matches first, each position once.
pub open spec fn ends_of_rounds(p: Pat, cs: Seq<char>, i: usize, lo: nat, hi: nat) -> Seq<usize>
    decreases p, 3nat, hi - lo + 1,
{
    if lo > hi {
        seq![]
    } else {
        with_new(ends_of_rounds(p, cs, i, lo + 1, hi), round(p, cs, i, lo))
    }
}

/// The ends of a match are the positions up to which the expression matches.
pub proof fn law_ends(p: Pat, cs: Seq<char>, i: usize)
    requires
        cs.len() <= usize::MAX,
    ensures
        forall|e: int| #[trigger] lists(ends(p, cs, i), e) <==> spans(p, cs, i as int, e),
    decreases p, 0nat, 0nat,
{
    match p {
        Pat::Cat(ps) => {
            lemma_ends_of_all(ps, cs, i);
            assert(ends(p, cs, i) == ends_of_all(ps, cs, i));
        },
        Pat::Alt(ps) => {
            lemma_ends_of_each(ps, cs, i);
            assert(ends(p, cs, i) == ends_of_each(ps, cs, i));
        },
        Pat::Rep(inner, lo, hi) => {
            lemma_ends_of_rounds(*inner, cs, i, lo, hi);
            assert(ends(p, cs, i) == ends_of_rounds(*inner, cs, i, lo, hi));
        },
        _ => {
            lemma_lists_one(i);
            lemma_lists_one((i + 1) as usize);
            lemma_lists_one(0);
        },
    }
}

proof fn lemma_carry_on(p: Pat, cs: Seq<char>, from: Seq<usize>)
    requires
        cs.len() <= usize::MAX,
    ensures
        forall|e: int| #[trigger]
            lists(carry_on(p, cs, from), e) <==> exists|k: int| #[trigger]
                cut(k) && lists(from, k) && spans(p, cs, k, e),
    decreases p, 1nat, from.len(),
{
    if from.len() > 0 {
        let front = from.drop_last();
        let x = from.last();
        lemma_carry_on(p, cs, front);
        law_ends(p, cs, x);
        lemma_lists_concat(carry_on(p, cs, front), ends(p, cs, x));
        lemma_lists_push(front, x);
        assert(from =~= front.push(x));
        assert(cut(x as int));
        assert forall|e: int| #[trigger] lists(carry_on(p, cs, from), e) <==> exists|k: int|
            #[trigger] cut(k) && lists(from, k) && spans(p, cs, k, e) by {
            if lists(carry_on(p, cs, front), e) {
                let k = choose|k: int| #[trigger]
                    cut(k) && lists(front, k) && spans(p, cs, k, e);
                assert(cut(k) && lists(from, k));
            }
        }
    }
}

proof fn lemma_ends_of_all(ps: Seq<Pat>, cs: Seq<char>, i: usize)
    requires
        cs.len() <= usize::MAX,
    ensures
        forall|e: int| #[trigger]
            lists(ends_of_all(ps, cs, i), e) <==> spans_all(ps, cs, i as int, e),
    decreases ps, 0nat, 0nat,
{
    if ps.len() == 0 {
        lemma_lists_one(i);
    } else {
        let front = ends_of_all(ps.drop_last(), cs, i);
        lemma_ends_of_all(ps.drop_last(), cs, i);
        lemma_carry_on(ps.last(), cs, front);
        assert(ends_of_all(ps, cs, i) == carry_on(ps.last(), cs, front));
        assert forall|e: int| #[trigger]
            lists(ends_of_all(ps, cs, i), e) <==> spans_all(ps, cs, i as int, e) by {
            if lists(ends_of_all(ps, cs, i), e) {
                let k = choose|k: int| #[trigger]
                    cut(k) && lists(front, k) && spans(ps.last(), cs, k, e);
                assert(cut(k) && spans_all(ps.drop_last(), cs, i as int, k));
            }
            if spans_all(ps, cs, i as int, e) {
                let k = choose|k: int| #[trigger]
                    cut(k) && spans_all(ps.drop_last(), cs, i as int, k) && spans(
                        ps.last(),
                        cs,
                        k,
                        e,
                    );
                assert(cut(k) && lists(front, k));
            }
        }
    }
}

proof fn lemma_ends_of_each(ps: Seq<Pat>, cs: Seq<char>, i: usize)
    requires
        cs.len() <= usize::MAX,
    ensures
        forall|e: int| #[trigger]
            lists(ends_of_each(ps, cs, i), e) <==> exists|k: int| #[trigger]
                cut(k) && 0 <= k < ps.len() && spans(ps[k], cs, i as int, e),
    decreases ps, 0nat, 0nat,
{
    if ps.len() > 0 {
        let front = ps.drop_last();
        let last = ps.len() - 1;
        lemma_ends_of_each(front, cs, i);
        law_ends(ps.last(), cs, i);
        lemma_lists_concat(ends_of_each(front, cs, i), ends(ps.last(), cs, i));
        assert forall|e: int| #[trigger] lists(ends_of_each(ps, cs, i), e) <==> exists|k: int|
            #[trigger] cut(k) && 0 <= k < ps.len() && spans(ps[k], cs, i as int, e) by {
            if lists(ends_of_each(front, cs, i), e) {
                let k = choose|k: int| #[trigger]
                    cut(k) && 0 <= k < front.len() && spans(front[k], cs, i as int, e);
                assert(cut(k) && spans(ps[k], cs, i as int, e));
            }
            if lists(ends(ps.last(), cs, i), e) {
                assert(cut(last) && spans(ps[last], cs, i as int, e));
            }
            if exists|k: int| #[trigger]
                cut(k) && 0 <= k < ps.len() && spans(ps[k], cs, i as int, e) {
                let k = choose|k: int| #[trigger]
                    cut(k) && 0 <= k < ps.len() && spans(ps[k], cs, i as int, e);
                if k < last {
                    assert(cut(k) && spans(front[k], cs, i as int, e));
                }
            }
        }
    }
}

proof fn lemma_without(es: Seq<usize>, x: usize)
    ensures
        forall|e: int| #[trigger] lists(without(es, x), e) <==> lists(es, e) && e != x,
    decreases es.len(),
{
    if es.len() > 0 {
        lemma_without(es.drop_last(), x);
        lemma_lists_push(es.drop_last(), es.last());
        lemma_lists_push(without(es.drop_last(), x), es.last());
        assert(es =~= es.drop_last().push(es.last()));
    }
}

proof fn lemma_with_new(acc: Seq<usize>, es: Seq<usize>)
    ensures
        forall|e: int| #[trigger] lists(with_new(acc, es), e) <==> lists(acc, e) || lists(es, e),
        acc.no_duplicates() ==> with_new(acc, es).no_duplicates(),
    decreases es.len(),
{
    if es.len() > 0 {
        let front = with_new(acc, es.drop_last());
        let x = es.last();
        lemma_with_new(acc, es.drop_last());
        lemma_lists_push(es.drop_last(), x);
        lemma_lists_push(front, x);
        assert(es =~= es.drop_last().push(x));
        if front.contains(x) {
            let k = choose|k: int| 0 <= k < front.len() && front[k] == x;
            assert(lists(front, x as int));
        }
    }
}

proof fn lemma_next_round(p: Pat, cs: Seq<char>, from: Seq<usize>)
    requires
        cs.len() <= usize::MAX,
    ensures
        forall|e: int| #[trigger]
            lists(next_round(p, cs, from), e) <==> exists|k: int| #[trigger]
                cut(k) && lists(from, k) && k != e && spans(p, cs, k, e),
    decreases p, 1nat, from.len(),
{
    if from.len() > 0 {
        let front = from.drop_last();
        let x = from.last();
        lemma_next_round(p, cs, front);
        law_ends(p, cs, x);
        lemma_without(ends(p, cs, x), x);
        lemma_with_new(next_round(p, cs, front), without(ends(p, cs, x), x));
        lemma_lists_push(front, x);
        assert(from =~= front.push(x));
        assert(cut(x as int));
        assert forall|e: int| #[trigger] lists(next_round(p, cs, from), e) <==> exists|k: int|
            #[trigger] cut(k) && lists(from, k) && k != e && spans(p, cs, k, e) by {
            if lists(next_round(p, cs, front), e) {
                let k = choose|k: int| #[trigger]
                    cut(k) && lists(front, k) && k != e && spans(p, cs, k, e);
                assert(cut(k) && lists(from, k));
            }
        }
    }
}

proof fn lemma_round(p: Pat, cs: Seq<char>, i: usize, n: nat)
    requires
        cs.len() <= usize::MAX,
    ensures
        forall|e: int| #[trigger]
            lists(round(p, cs, i, n), e) <==> spans_times(p, cs, n, i as int, e),
    decreases p, 2nat, n,
{
    if n == 0 {
        lemma_lists_one(i);
    } else {
        let from = round(p, cs, i, (n - 1) as nat);
        lemma_round(p, cs, i, (n - 1) as nat);
        lemma_next_round(p, cs, from);
        assert(round(p, cs, i, n) == next_round(p, cs, from));
        assert forall|e: int| #[trigger]
            lists(round(p, cs, i, n), e) <==> spans_times(p, cs, n, i as int, e) by {
            if lists(round(p, cs, i, n), e) {
                let k = choose|k: int| #[trigger]
                    cut(k) && lists(from, k) && k != e && spans(p, cs, k, e);
                assert(cut(k) && spans_times(p, cs, (n - 1) as nat, i as int, k));
            }
            if spans_times(p, cs, n, i as int, e) {
                let k = choose|k: int| #[trigger]
                    cut(k) && spans_times(p, cs, (n - 1) as nat, i as int, k) && k != e && spans(
                        p,
                        cs,
                        k,
                        e,
                    );
                assert(cut(k) && lists(from, k));
            }
        }
    }
}

proof fn lemma_ends_of_rounds(p: Pat, cs: Seq<char>, i: usize, lo: nat, hi: nat)
    requires
        cs.len() <= usize::MAX,
    ensures
        forall|e: int| #[trigger]
            lists(ends_of_rounds(p, cs, i, lo, hi), e) <==> exists|n: nat| #[trigger]
                cut(n as int) && lo <= n <= hi && spans_times(p, cs, n, i as int, e),
    decreases p, 3nat, hi - lo + 1,
{
    if lo <= hi {
        let more = ends_of_rounds(p, cs, i, lo + 1, hi);
        lemma_ends_of_rounds(p, cs, i, lo + 1, hi);
        lemma_round(p, cs, i, lo);
        lemma_with_new(more, round(p, cs, i, lo));
        assert forall|e: int| #[trigger]
            lists(ends_of_rounds(p, cs, i, lo, hi), e) <==> exists|n: nat| #[trigger]
                cut(n as int) && lo <= n <= hi && spans_times(p, cs, n, i as int, e) by {
            if lists(more, e) {
                let n = choose|n: nat| #[trigger]
                    cut(n as int) && lo + 1 <= n <= hi && spans_times(p, cs, n, i as int, e);
                assert(cut(n as int) && lo <= n <= hi);
            }
            if lists(round(p, cs, i, lo), e) {
                assert(cut(lo as int));
            }
            if exists|n: nat| #[trigger]
                cut(n as int) && lo <= n <= hi && spans_times(p, cs, n, i as int, e) {
                let n = choose|n: nat| #[trigger]
                    cut(n as int) && lo <= n <= hi && spans_times(p, cs, n, i as int, e);
                if n > lo {
                    assert(cut(n as int) && lo + 1 <= n <= hi);
                }
            }
        }
    }
}

/// No end of a repetition is listed twice.
pub proof fn law_ends_once(p: Pat, cs: Seq<char>, i: usize, lo: nat, hi: nat)
    ensures
        ends(Pat::Rep(Box::new(p), lo, hi), cs, i).no_duplicates(),
    decreases hi - lo + 1,
{
    if lo <= hi {
        law_ends_once(p, cs, i, lo + 1, hi);
        lemma_with_new(ends_of_rounds(p, cs, i, lo + 1, hi), round(p, cs, i, lo));
    }
}

/// A repetition of what matches a single character tries the longest match first.
pub proof fn law_longest_first(p: Pat, lo: nat, hi: nat, cs: Seq<char>, i: usize)
    requires
        cs.len() <= usize::MAX,
        p is Lit || p is Dot || p is Class,
    ensures
        forall|a: int, b: int|
            0 <= a < b < ends(Pat::Rep(Box::new(p), lo, hi), cs, i).len() ==> #[trigger] ends(
                Pat::Rep(Box::new(p), lo, hi),
                cs,
                i,
            )[a] > #[trigger] ends(Pat::Rep(Box::new(p), lo, hi), cs, i)[b],
    decreases hi - lo + 1,
{
    let all = ends_of_rounds(p, cs, i, lo, hi);
    assert(ends(Pat::Rep(Box::new(p), lo, hi), cs, i) == all);
    if lo <= hi {
        let more = ends_of_rounds(p, cs, i, lo + 1, hi);
        let last = round(p, cs, i, lo);
        law_longest_first(p, lo + 1, hi, cs, i);
        assert(ends(Pat::Rep(Box::new(p), lo + 1, hi), cs, i) == more);
        law_ends(Pat::Rep(Box::new(p), lo + 1, hi), cs, i);
        lemma_round(p, cs, i, lo);
        law_ends_once(p, cs, i, lo, hi);
        lemma_behind(more, last);
        assert forall|x: int| 0 <= x < more.len() implies #[trigger] more[x] > i + lo by {
            assert(lists(more, more[x] as int));
            law_rounds_advance(p, lo + 1, hi, cs, i as int, more[x] as int);
        }
        assert forall|x: int| more.len() <= x < all.len() implies #[trigger] all[x] == i + lo by {
            assert(last.contains(all[x]));
            let y = choose|y: int| 0 <= y < last.len() && last[y] == all[x];
            assert(lists(last, all[x] as int));
            lemma_single_steps(p, cs, lo, i as int, all[x] as int);
        }
        assert forall|a: int, b: int| 0 <= a < b < all.len() implies #[trigger] all[a]
            > #[trigger] all[b] by {
            if b < more.len() {
                assert(all[a] == more[a] && all[b] == more[b]);
            } else if a < more.len() {
                assert(all[a] == more[a]);
            } else {
                assert(all[a] != all[b]);
            }
        }
    }
}

/// New positions come behind those that are there.
proof fn lemma_behind(acc: Seq<usize>, es: Seq<usize>)
    ensures
        acc.len() <= with_new(acc, es).len(),
        forall|x: int| 0 <= x < acc.len() ==> #[trigger] with_new(acc, es)[x] == acc[x],
        forall|x: int|
            acc.len() <= x < with_new(acc, es).len() ==> es.contains(
                #[trigger] with_new(acc, es)[x],
            ),
    decreases es.len(),
{
    if es.len() > 0 {
        let front = es.drop_last();
        lemma_behind(acc, front);
        assert forall|x: int| acc.len() <= x < with_new(acc, es).len() implies es.contains(
            #[trigger] with_new(acc, es)[x],
        ) by {
            if x < with_new(acc, front).len() {
                let e = with_new(acc, front)[x];
                assert(front.contains(e));
                let y = choose|y: int| 0 <= y < front.len() && front[y] == e;
                assert(es[y] == e);
            } else {
                assert(es[es.len() - 1] == es.last());
            }
        }
    }
}

/// Matches of a single character each advance by as many characters as there are.
proof fn lemma_single_steps(p: Pat, cs: Seq<char>, n: nat, i: int, j: int)
    requires
        p is Lit || p is Dot || p is Class,
        spans_times(p, cs, n, i, j),
    ensures
        j == i + n,
    decreases n,
{
    if n > 0 {
        let k = choose|k: int|
            #[trigger] cut(k) && spans_times(p, cs, (n - 1) as nat, i, k) && k != j && spans(
                p,
                cs,
                k,
                j,
            );
        lemma_single_steps(p, cs, (n - 1) as nat, i, k);
    }
}

/// The ends of a sequence of parts are those of its last part from each end of the parts
/// before it, in their order.
pub proof fn law_ends_of_sequence(ps: Seq<Pat>, p: Pat, cs: Seq<char>, i: usize)
    ensures
        ends(Pat::Cat(Seq::empty()), cs, i) == seq![i],
        ends(Pat::Cat(ps.push(p)), cs, i) == ends(Pat::Cat(ps), cs, i).map_values(
            |k: usize| ends(p, cs, k),
        ).flatten(),
{
    let all = ps.push(p);
    let front = ends_of_all(ps, cs, i);
    assert(all.drop_last() =~= ps);
    assert(ends(Pat::Cat(Seq::<Pat>::empty()), cs, i) == ends_of_all(
        Seq::<Pat>::empty(),
        cs,
        i,
    ));
    assert(ends(Pat::Cat(ps), cs, i) == front);
    assert(ends(Pat::Cat(all), cs, i) == ends_of_all(all, cs, i));
    assert(ends_of_all(all, cs, i) == carry_on(all.last(), cs, ends_of_all(
        all.drop_last(),
        cs,
        i,
    )));
    lemma_carried(p, cs, front);
}

proof fn lemma_carried(p: Pat, cs: Seq<char>, from: Seq<usize>)
    ensures
        carry_on(p, cs, from) == from.map_values(|k: usize| ends(p, cs, k)).flatten(),
    decreases from.len(),
{
    let mapped = from.map_values(|k: usize| ends(p, cs, k));
    if from.len() == 0 {
        assert(mapped.flatten() =~= Seq::<usize>::empty());
    } else {
        let front = from.drop_last();
        lemma_carried(p, cs, front);
        let before = front.map_values(|k: usize| ends(p, cs, k));
        assert(mapped =~= before.push(ends(p, cs, from.last())));
        before.lemma_flatten_push(ends(p, cs, from.last()));
        assert(carry_on(p, cs, from) == carry_on(p, cs, front) + ends(p, cs, from.last()));
    }
}

/// Where no position is left after `n` rounds none is left later.
proof fn lemma_dry_round(p: Pat, cs: Seq<char>, i: usize, n: nat, m: nat)
    requires
        n <= m,
        round(p, cs, i, n).len() == 0,
    ensures
        round(p, cs, i, m).len() == 0,
    decreases m,
{
    if n < m {
        lemma_dry_round(p, cs, i, n, (m - 1) as nat);
        let from = round(p, cs, i, (m - 1) as nat);
        assert(round(p, cs, i, m) == next_round(p, cs, from));
        assert(next_round(p, cs, from).len() == 0);
    }
}

/// Rounds that reach no position add no end, so that a repetition may stop there.
pub proof fn law_dry_rounds(p: Pat, cs: Seq<char>, i: usize, n: nat, lo: nat, hi: nat)
    requires
        n <= lo,
        round(p, cs, i, n).len() == 0,
    ensures
        ends_of_rounds(p, cs, i, lo, hi).len() == 0,
    decreases hi - lo + 1,
{
    if lo <= hi {
        law_dry_rounds(p, cs, i, n, lo + 1, hi);
        lemma_dry_round(p, cs, i, n, lo);
    }
}

/// Parts that reach no position carry nothing on.
proof fn lemma_dead_parts(ps: Seq<Pat>, k: int, cs: Seq<char>, i: usize)
    requires
        0 <= k <= ps.len(),
        ends_of_all(ps.take(k), cs, i).len() == 0,
    ensures
        ends_of_all(ps, cs, i).len() == 0,
    decreases ps.len(),
{
    if k == ps.len() {
        assert(ps.take(k) =~= ps);
    } else {
        assert(ps.drop_last().take(k) =~= ps.take(k));
        lemma_dead_parts(ps.drop_last(), k, cs, i);
        let from = ends_of_all(ps.drop_last(), cs, i);
        assert(ends_of_all(ps, cs, i) == carry_on(ps.last(), cs, from));
        assert(carry_on(ps.last(), cs, from).len() == 0);
    }
}

/// `p` matches a part of `cs`.
pub open spec fn found_in(p: Pat, cs: Seq<char>) -> bool {
    exists|i: int, j: int| 0 <= i <= cs.len() && #[trigger] spans(p, cs, i, j)
}

/// `p` ends in `$` whichever way it is matched.
pub open spec fn wants_end(p: Pat) -> bool
    decreases p,
{
    match p {
        Pat::End => true,
        Pat::Cat(ps) => ps.len() > 0 && wants_end(ps.last()),
        Pat::Alt(ps) => ps.len() > 0 && forall|k: int|
            0 <= k < ps.len() ==> wants_end(#[trigger] ps[k]),
        _ => false,
    }
}

/// `p` starts with `^`.
pub open spec fn wants_begin(p: Pat) -> bool {
    match p {
        Pat::Begin => true,
        Pat::Cat(ps) => ps.len() > 0 && ps[0] == Pat::Begin,
        _ => false,
    }
}

/// A sequence of parts matches where its first part matches and the others match on
/// from there.
pub proof fn law_sequence(a: Pat, rest: Seq<Pat>, cs: Seq<char>, i: int, j: int)
    ensures
        spans(Pat::Cat(seq![a] + rest), cs, i, j) <==> exists|k: int| #[trigger]
            cut(k) && spans(a, cs, i, k) && spans(Pat::Cat(rest), cs, k, j),
    decreases rest.len(),
{
    let all = seq![a] + rest;
    assert(spans(Pat::Cat(all), cs, i, j) == spans_all(all, cs, i, j));
    assert forall|k: int, e: int| #[trigger]
        spans(Pat::Cat(rest), cs, k, e) == spans_all(rest, cs, k, e) by {}
    if rest.len() == 0 {
        assert(all.drop_last() =~= Seq::<Pat>::empty());
        assert(all.last() == a);
        assert(cut(i) && cut(j));
        if spans_all(all, cs, i, j) {
            let k = choose|k: int| #[trigger]
                cut(k) && spans_all(all.drop_last(), cs, i, k) && spans(all.last(), cs, k, j);
            assert(cut(j) && spans(a, cs, i, j) && spans(Pat::Cat(rest), cs, j, j));
        }
        if spans(a, cs, i, j) {
            assert(cut(i) && spans_all(all.drop_last(), cs, i, i) && spans(all.last(), cs, i, j));
        }
    } else {
        let front = rest.drop_last();
        assert(all.drop_last() =~= seq![a] + front);
        assert(all.last() == rest.last());
        if spans_all(all, cs, i, j) {
            let m = choose|m: int| #[trigger]
                cut(m) && spans_all(all.drop_last(), cs, i, m) && spans(all.last(), cs, m, j);
            law_sequence(a, front, cs, i, m);
            assert(spans(Pat::Cat(seq![a] + front), cs, i, m));
            let k = choose|k: int| #[trigger]
                cut(k) && spans(a, cs, i, k) && spans(Pat::Cat(front), cs, k, m);
            assert(cut(m) && spans_all(front, cs, k, m) && spans(rest.last(), cs, m, j));
            assert(cut(k) && spans(a, cs, i, k) && spans(Pat::Cat(rest), cs, k, j));
        }
        if exists|k: int| #[trigger]
            cut(k) && spans(a, cs, i, k) && spans(Pat::Cat(rest), cs, k, j) {
            let k = choose|k: int| #[trigger]
                cut(k) && spans(a, cs, i, k) && spans(Pat::Cat(rest), cs, k, j);
            assert(spans_all(rest, cs, k, j));
            let m = choose|m: int| #[trigger]
                cut(m) && spans_all(front, cs, k, m) && spans(rest.last(), cs, m, j);
            law_sequence(a, front, cs, i, m);
            assert(cut(k) && spans(a, cs, i, k) && spans(Pat::Cat(front), cs, k, m));
            assert(spans(Pat::Cat(seq![a] + front), cs, i, m));
            assert(cut(m) && spans_all(all.drop_last(), cs, i, m) && spans(all.last(), cs, m, j));
        }
    }
}

/// A repetition of at least `lo` rounds leads at least `lo` characters on.
pub proof fn law_rounds_advance(p: Pat, lo: nat, hi: nat, cs: Seq<char>, i: int, j: int)
    requires
        0 <= i,
        spans(Pat::Rep(Box::new(p), lo, hi), cs, i, j),
    ensures
        i + lo <= j,
{
    let n = choose|n: nat| #[trigger]
        cut(n as int) && lo <= n <= hi && spans_times(p, cs, n, i, j);
    lemma_times_forward(p, cs, n, i, j);
}

/// A choice is found exactly where one of its branches is.
pub proof fn law_choice(ps: Seq<Pat>, cs: Seq<char>)
    ensures
        found_in(Pat::Alt(ps), cs) <==> exists|k: int|
            0 <= k < ps.len() && found_in(#[trigger] ps[k], cs),
{
    let p = Pat::Alt(ps);
    if found_in(p, cs) {
        let (i, j) = choose|i: int, j: int| 0 <= i <= cs.len() && #[trigger] spans(p, cs, i, j);
        let k = choose|k: int| #[trigger] cut(k) && 0 <= k < ps.len() && spans(ps[k], cs, i, j);
        assert(found_in(ps[k], cs));
    }
    if exists|k: int| 0 <= k < ps.len() && found_in(#[trigger] ps[k], cs) {
        let k = choose|k: int| 0 <= k < ps.len() && found_in(#[trigger] ps[k], cs);
        let (i, j) = choose|i: int, j: int|
            0 <= i <= cs.len() && #[trigger] spans(ps[k], cs, i, j);
        assert(cut(k));
        assert(spans(p, cs, i, j));
    }
}

/// What may be repeated no times is found in every text.
pub proof fn law_optional(p: Pat, hi: nat, cs: Seq<char>)
    ensures
        found_in(Pat::Rep(Box::new(p), 0, hi), cs),
{
    assert(spans_times(p, cs, 0, 0, 0));
    assert(cut(0nat as int));
    assert(spans(Pat::Rep(Box::new(p), 0, hi), cs, 0, 0));
}

/// What ends in `$` matches up to the end of the text only.
pub proof fn law_end_anchor(p: Pat, cs: Seq<char>, i: int, j: int)
    requires
        wants_end(p),
        spans(p, cs, i, j),
    ensures
        j == cs.len(),
    decreases p,
{
    match p {
        Pat::Cat(ps) => {
            assert(spans_all(ps, cs, i, j));
            let k = choose|k: int| #[trigger]
                cut(k) && spans_all(ps.drop_last(), cs, i, k) && spans(ps.last(), cs, k, j);
            law_end_anchor(ps.last(), cs, k, j);
        },
        Pat::Alt(ps) => {
            let k = choose|k: int| #[trigger] cut(k) && 0 <= k < ps.len() && spans(ps[k], cs, i, j);
            law_end_anchor(ps[k], cs, i, j);
        },
        _ => {},
    }
}

/// What starts with `^` matches from the beginning of the text only.
pub proof fn law_begin_anchor(p: Pat, cs: Seq<char>, i: int, j: int)
    requires
        wants_begin(p),
        spans(p, cs, i, j),
    ensures
        i == 0,
{
    if let Pat::Cat(ps) = p {
        lemma_begin_first(ps, cs, i, j);
    }
}

proof fn lemma_begin_first(ps: Seq<Pat>, cs: Seq<char>, i: int, j: int)
    requires
        ps.len() > 0,
        ps[0] == Pat::Begin,
        spans_all(ps, cs, i, j),
    ensures
        i == 0,
    decreases ps.len(),
{
    let k = choose|k: int| #[trigger]
        cut(k) && spans_all(ps.drop_last(), cs, i, k) && spans(ps.last(), cs, k, j);
    if ps.len() > 1 {
        lemma_begin_first(ps.drop_last(), cs, i, k);
    } else {
        reveal_with_fuel(spans_all, 2);
    }
}

impl Clone for Rx {
    /// The same expression.
    fn clone(&self) -> (r: Rx)
        ensures
            r@ == self@,
        decreases self,
    {
        match self {
            Rx::Empty => Rx::Empty,
            Rx::Lit(c) => Rx::Lit(*c),
            Rx::Dot => Rx::Dot,
            Rx::Class { neg, rs } => Rx::Class { neg: *neg, rs: clone_ranges(rs) },
            Rx::Cat(v) => Rx::Cat(clone_all(v)),
            Rx::Alt(v) => Rx::Alt(clone_all(v)),
            Rx::Rep(inner, lo, hi) => Rx::Rep(Box::new((**inner).clone()), *lo, *hi),
            Rx::Begin => Rx::Begin,
            Rx::End => Rx::End,
        }
    }
}

/// The same ranges.
fn clone_ranges(rs: &Vec<(char, char)>) -> (out: Vec<(char, char)>)
    ensures
        out@ == rs@,
{
    let mut out: Vec<(char, char)> = Vec::new();
    let mut k: usize = 0;
    while k < rs.len()
        invariant
            k <= rs.len(),
            out@ == rs@.take(k as int),
        decreases rs.len() - k,
    {
        out.push(rs[k]);
        k += 1;
    }
    assert(rs@.take(k as int) == rs@);
    out
}

/// The same expressions.
fn clone_all(v: &Vec<Rx>) -> (out: Vec<Rx>)
    ensures
        pats(out@) == pats(v@),
    decreases v,
{
    let mut out: Vec<Rx> = Vec::new();
    let mut k: usize = 0;
    while k < v.len()
        invariant
            k <= v.len(),
            out@.len() == k,
            forall|m: int| 0 <= m < k ==> (#[trigger] out@[m])@ == v@[m]@,
        decreases v.len() - k,
    {
        out.push(v[k].clone());
        k += 1;
    }
    assert(pats(out@) =~= pats(v@));
    out
}

/// An expression that is searched for.
#[derive(Debug)]
pub struct SimpleRegex {
    pub root: Rx,
}

impl Clone for SimpleRegex {
    /// The same expression.
    fn clone(&self) -> (r: SimpleRegex)
        ensures
            r.root@ == self.root@,
    {
        SimpleRegex { root: self.root.clone() }
    }
}

impl SimpleRegex {
    /// Whether the pattern matches some part of `text`.
    pub fn is_match(&self, text: &str) -> (yes: bool)
        ensures
            yes == found_in(self.root@, text@),
    {
        let cs = chars_of(text);
        let anchored = match &self.root {
            Rx::Cat(v) => v.len() > 0 && is_begin(&v[0]),
            Rx::Begin => true,
            _ => false,
        };
        assert(anchored == wants_begin(self.root@)) by {
            if let Rx::Cat(v) = self.root {
                assert(self.root@ == Pat::Cat(pats(v@)));
                assert(pats(v@).len() == v@.len());
                if v@.len() > 0 {
                    assert(pats(v@)[0] == v@[0]@);
                }
            }
        }
        let last = if anchored {
            0
        } else {
            cs.len()
        };
        let mut start: usize = 0;
        loop
            invariant
                start <= last <= cs.len(),
                cs@ == text@,
                anchored == wants_begin(self.root@),
                last == if anchored { 0 } else { cs.len() },
                forall|i: int, j: int| 0 <= i < start ==> !#[trigger] spans(self.root@, cs@, i, j),
            decreases last - start,
        {
            let ends = Self::match_at(&self.root, cs.as_slice(), start);
            let mut x: usize = 0;
            while x < ends.len()
                invariant
                    x <= ends.len(),
                    start <= cs.len(),
                    cs@ == text@,
                    forall|e: int| #[trigger]
                        lists(ends@, e) <==> spans(self.root@, cs@, start as int, e),
                    x == 0,
                decreases ends.len() - x,
            {
                assert(lists(ends@, ends@[x as int] as int));
                let ok = Self::tail_ok(&self.root, cs.as_slice(), ends[x]);
                proof {
                    if wants_end(self.root@) {
                        law_end_anchor(self.root@, cs@, start as int, ends@[x as int] as int);
                    }
                }
                if ok {
                    return true;
                }
                x += 1;
            }
            assert forall|j: int| !#[trigger] spans(self.root@, cs@, start as int, j) by {
                assert(!lists(ends@, j));
            }
            if start == last {
                proof {
                    if found_in(self.root@, cs@) {
                        let (i, j) = choose|i: int, j: int|
                            0 <= i <= cs@.len() && #[trigger] spans(self.root@, cs@, i, j);
                        if anchored {
                            law_begin_anchor(self.root@, cs@, i, j);
                        }
                    }
                }
                return false;
            }
            start += 1;
        }
    }

    /// Whether the whole pattern has to match up to the end of the text.
    pub fn needs_end(node: &Rx) -> (yes: bool)
        ensures
            yes == wants_end(node@),
        decreases node,
    {
        match node {
            Rx::End => true,
            Rx::Cat(v) => {
                assert(pats(v@).len() == v@.len());
                if v.len() == 0 {
                    false
                } else {
                    assert(pats(v@).last() == v@.last()@);
                    Self::needs_end(&v[v.len() - 1])
                }
            },
            Rx::Alt(v) => {
                assert(pats(v@).len() == v@.len());
                v.len() > 0 && Self::all_need_end(v)
            },
            _ => false,
        }
    }

    /// Whether every one of the branches has to match up to the end of the text.
    fn all_need_end(v: &Vec<Rx>) -> (yes: bool)
        ensures
            yes == forall|k: int| 0 <= k < pats(v@).len() ==> wants_end(#[trigger] pats(v@)[k]),
        decreases v,
    {
        let mut k: usize = 0;
        while k < v.len()
            invariant
                k <= v.len(),
                forall|m: int| 0 <= m < k ==> wants_end(#[trigger] pats(v@)[m]),
            decreases v.len() - k,
        {
            assert(pats(v@)[k as int] == v@[k as int]@);
            if !Self::needs_end(&v[k]) {
                return false;
            }
            k += 1;
        }
        true
    }

    /// Whether a match of `node` may end at `e`.
    pub fn tail_ok(node: &Rx, cs: &[char], e: usize) -> (yes: bool)
        ensures
            yes == (e == cs@.len() || !wants_end(node@)),
    {
        e == cs.len() || !Self::needs_end(node)
    }

    /// The positions at which a match of `node` that starts at `pos` can end, in the
    /// order in which they are tried: the branches one after the other, and of a
    /// repetition the most rounds first.
    pub fn match_at(node: &Rx, cs: &[char], pos: usize) -> (out: Vec<usize>)
        ensures
            out@ == ends(node@, cs@, pos),
            forall|e: int| #[trigger] lists(out@, e) <==> spans(node@, cs@, pos as int, e),
        decreases node, 0nat,
    {
        proof {
            assert(cs.len() <= usize::MAX);
            law_ends(node@, cs@, pos);
        }
        match node {
            Rx::Empty => one(pos),
            Rx::Lit(c) => {
                if pos < cs.len() && cs[pos] == *c {
                    one(pos + 1)
                } else {
                    Vec::new()
                }
            },
            Rx::Dot => {
                if pos < cs.len() {
                    one(pos + 1)
                } else {
                    Vec::new()
                }
            },
            Rx::Class { neg, rs } => {
                assert(node@ == Pat::Class { neg: *neg, rs: rs@ });
                if pos < cs.len() {
                    let hit = class_has(rs, cs[pos]);
                    if hit != *neg {
                        let out = one(pos + 1);
                        assert(out@ == ends(node@, cs@, pos));
                        return out;
                    }
                }
                Vec::new()
            },
            Rx::Begin => {
                if pos == 0 {
                    one(0)
                } else {
                    Vec::new()
                }
            },
            Rx::End => {
                if pos == cs.len() {
                    one(pos)
                } else {
                    Vec::new()
                }
            },
            Rx::Cat(v) => {
                assert(node@ == Pat::Cat(pats(v@)));
                Self::cat_ends(v, cs, pos)
            },
            Rx::Alt(v) => {
                assert(node@ == Pat::Alt(pats(v@)));
                Self::alt_ends(v, cs, pos)
            },
            Rx::Rep(inner, lo, hi) => {
                assert(node@ == Pat::Rep(Box::new(inner@), *lo as nat, *hi as nat));
                Self::rep_ends(inner, *lo, *hi, cs, pos)
            },
        }
    }

    /// The ends of the branches `v`, one branch after the other.
    fn alt_ends(v: &Vec<Rx>, cs: &[char], pos: usize) -> (out: Vec<usize>)
        ensures
            out@ == ends_of_each(pats(v@), cs@, pos),
        decreases v, 0nat,
    {
        let ghost ps = pats(v@);
        let mut out: Vec<usize> = Vec::new();
        let mut k: usize = 0;
        while k < v.len()
            invariant
                k <= v.len(),
                ps == pats(v@),
                out@ == ends_of_each(ps.take(k as int), cs@, pos),
            decreases v.len() - k,
        {
            let mut more = Self::match_at(&v[k], cs, pos);
            proof {
                let part = ps.take(k + 1);
                assert(part.drop_last() =~= ps.take(k as int));
                assert(part.last() == v@[k as int]@);
            }
            out.append(&mut more);
            k += 1;
        }
        assert(ps.take(k as int) =~= ps);
        out
    }

    /// The ends of the matches of `node` that start at the positions `from`, one
    /// position after the other.
    fn ends_from(node: &Rx, cs: &[char], from: &Vec<usize>) -> (out: Vec<usize>)
        ensures
            out@ == carry_on(node@, cs@, from@),
        decreases node, 1nat,
    {
        let mut out: Vec<usize> = Vec::new();
        let mut x: usize = 0;
        while x < from.len()
            invariant
                x <= from.len(),
                out@ == carry_on(node@, cs@, from@.take(x as int)),
            decreases from.len() - x,
        {
            let mut more = Self::match_at(node, cs, from[x]);
            assert(from@.take(x + 1).drop_last() =~= from@.take(x as int));
            out.append(&mut more);
            x += 1;
        }
        assert(from@.take(x as int) =~= from@);
        out
    }

    /// The ends of the parts `v`, one after the other from `pos` on.
    fn cat_ends(v: &Vec<Rx>, cs: &[char], pos: usize) -> (out: Vec<usize>)
        ensures
            out@ == ends_of_all(pats(v@), cs@, pos),
        decreases v, 0nat,
    {
        let ghost ps = pats(v@);
        let mut cur = one(pos);
        let mut k: usize = 0;
        while k < v.len()
            invariant
                k <= v.len(),
                ps == pats(v@),
                cur@ == ends_of_all(ps.take(k as int), cs@, pos),
            decreases v.len() - k,
        {
            let next = Self::ends_from(&v[k], cs, &cur);
            proof {
                let part = ps.take(k + 1);
                assert(part.drop_last() =~= ps.take(k as int));
                assert(part.last() == v@[k as int]@);
            }
            cur = next;
            k += 1;
            if cur.len() == 0 {
                proof {
                    lemma_dead_parts(ps, k as int, cs@, pos);
                }
                assert(cur@ =~= ends_of_all(ps, cs@, pos));
                return cur;
            }
        }
        assert(ps.take(k as int) =~= ps);
        cur
    }

    /// The positions to which one more match of `inner` leads from the positions
    /// `from`.
    fn advance(inner: &Rx, cs: &[char], from: &Vec<usize>) -> (nx: Vec<usize>)
        ensures
            nx@ == next_round(inner@, cs@, from@),
        decreases inner, 1nat,
    {
        let mut nx: Vec<usize> = Vec::new();
        let mut x: usize = 0;
        while x < from.len()
            invariant
                x <= from.len(),
                nx@ == next_round(inner@, cs@, from@.take(x as int)),
            decreases from.len() - x,
        {
            let p = from[x];
            let found = Self::match_at(inner, cs, p);
            let ghost before = nx@;
            let mut y: usize = 0;
            while y < found.len()
                invariant
                    y <= found.len(),
                    nx@ == with_new(before, without(found@.take(y as int), p)),
                decreases found.len() - y,
            {
                let e = found[y];
                proof {
                    let part = found@.take(y + 1);
                    assert(part.drop_last() =~= found@.take(y as int));
                    let old_part = without(found@.take(y as int), p);
                    assert(old_part.push(e).drop_last() =~= old_part);
                }
                if e != p && !holds(&nx, e) {
                    nx.push(e);
                }
                y += 1;
            }
            assert(found@.take(y as int) =~= found@);
            assert(from@.take(x + 1).drop_last() =~= from@.take(x as int));
            x += 1;
        }
        assert(from@.take(x as int) =~= from@);
        nx
    }

    /// The positions to which from `lo` to `hi` matches of `inner` lead from `pos`, those
    /// of the most matches first.
    fn rep_ends(inner: &Rx, lo: usize, hi: usize, cs: &[char], pos: usize) -> (out: Vec<usize>)
        ensures
            out@ == ends_of_rounds(inner@, cs@, pos, lo as nat, hi as nat),
        decreases inner, 2nat,
    {
        let mut sets: Vec<Vec<usize>> = Vec::new();
        sets.push(one(pos));
        let mut k: usize = 0;
        let mut dry = false;
        while k < hi && !dry
            invariant
                k <= hi,
                sets.len() == k + 1,
                forall|m: int|
                    0 <= m <= k ==> (#[trigger] sets@[m])@ == round(inner@, cs@, pos, m as nat),
                dry ==> round(inner@, cs@, pos, (k + 1) as nat).len() == 0,
            decreases hi - k, (if dry { 0int } else { 1int }),
        {
            let nx = Self::advance(inner, cs, &sets[k]);
            assert(nx@ == round(inner@, cs@, pos, (k + 1) as nat));
            if nx.len() == 0 {
                dry = true;
            } else {
                sets.push(nx);
                k += 1;
            }
        }
        let mut out: Vec<usize> = Vec::new();
        let start = if lo < sets.len() {
            lo
        } else {
            sets.len()
        };
        let mut i: usize = sets.len();
        proof {
            if dry {
                law_dry_rounds(
                    inner@,
                    cs@,
                    pos,
                    (k + 1) as nat,
                    if lo > k + 1 {
                        lo as nat
                    } else {
                        (k + 1) as nat
                    },
                    hi as nat,
                );
                law_dry_rounds(inner@, cs@, pos, (k + 1) as nat, (k + 1) as nat, hi as nat);
            }
            assert(out@ =~= ends_of_rounds(inner@, cs@, pos, (k + 1) as nat, hi as nat));
            if lo > k + 1 {
                assert(ends_of_rounds(inner@, cs@, pos, lo as nat, hi as nat) =~= out@);
            }
        }
        while i > start
            invariant
                start <= i <= sets.len(),
                sets.len() == k + 1,
                k <= hi,
                start == if lo < sets.len() {
                    lo
                } else {
                    sets.len()
                },
                forall|m: int|
                    0 <= m <= k ==> (#[trigger] sets@[m])@ == round(inner@, cs@, pos, m as nat),
                out@ == ends_of_rounds(inner@, cs@, pos, i as nat, hi as nat),
                lo > k + 1 ==> ends_of_rounds(inner@, cs@, pos, lo as nat, hi as nat) == out@,
            decreases i,
        {
            i -= 1;
            let ghost before = out@;
            let mut y: usize = 0;
            while y < sets[i as usize].len()
                invariant
                    i < sets.len(),
                    y <= sets@[i as int].len(),
                    out@ == with_new(before, sets@[i as int]@.take(y as int)),
                decreases sets@[i as int].len() - y,
            {
                let e = sets[i][y];
                proof {
                    let s = sets@[i as int]@;
                    assert(s.take(y + 1).drop_last() =~= s.take(y as int));
                }
                if !holds(&out, e) {
                    out.push(e);
                }
                y += 1;
            }
            assert(sets@[i as int]@.take(y as int) =~= sets@[i as int]@);
        }
        out
    }
}

proof fn lemma_lists_one(e: usize)
    ensures
        forall|x: int| #[trigger] lists(seq![e], x) <==> x == e,
{
    assert(seq![e][0] == e);
}

fn is_begin(node: &Rx) -> (yes: bool)
    ensures
        yes == (node@ == Pat::Begin),
{
    match node {
        Rx::Begin => true,
        _ => false,
    }
}

fn holds(v: &Vec<usize>, e: usize) -> (yes: bool)
    ensures
        yes == v@.contains(e),
{
    let mut x: usize = 0;
    while x < v.len()
        invariant
            x <= v.len(),
            forall|m: int| 0 <= m < x ==> v@[m] != e,
        decreases v.len() - x,
    {
        if v[x] == e {
            return true;
        }
        x += 1;
    }
    false
}

proof fn lemma_lists_push(s: Seq<usize>, x: usize)
    ensures
        forall|e: int| #[trigger] lists(s.push(x), e) <==> lists(s, e) || e == x,
{
    lemma_lists_concat(s, seq![x]);
    lemma_lists_one(x);
    assert(s.push(x) =~= s + seq![x]);
}

proof fn lemma_lists_concat(a: Seq<usize>, b: Seq<usize>)
    ensures
        forall|e: int| #[trigger] lists(a + b, e) <==> lists(a, e) || lists(b, e),
{
    assert forall|e: int| lists(a, e) implies lists(a + b, e) by {
        let x = choose|x: int| 0 <= x < a.len() && #[trigger] a[x] == e;
        assert((a + b)[x] == e);
    }
    assert forall|e: int| lists(b, e) implies lists(a + b, e) by {
        let x = choose|x: int| 0 <= x < b.len() && #[trigger] b[x] == e;
        assert((a + b)[a.len() + x] == e);
    }
    assert forall|e: int| #[trigger] lists(a + b, e) implies lists(a, e) || lists(b, e) by {
        let x = choose|x: int| 0 <= x < (a + b).len() && #[trigger] (a + b)[x] == e;
        if x < a.len() {
            assert(a[x] == e);
        } else {
            assert(b[x - a.len()] == e);
        }
    }
}

fn one(e: usize) -> (out: Vec<usize>)
    ensures
        out@ == seq![e],
{
    let mut out: Vec<usize> = Vec::new();
    out.push(e);
    out
}

fn class_has(rs: &Vec<(char, char)>, c: char) -> (yes: bool)
    ensures
        yes == in_class(rs@, c),
{
    let mut k: usize = 0;
    while k < rs.len()
        invariant
            k <= rs.len(),
            forall|m: int| 0 <= m < k ==> !((#[trigger] rs@[m]).0 <= c && c <= rs@[m].1),
        decreases rs.len() - k,
    {
        if rs[k].0 <= c && c <= rs[k].1 {
            return true;
        }
        k += 1;
    }
    false
}

} // verus!
