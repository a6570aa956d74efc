//! What patterns find, in terms of how they are written.

use vstd::prelude::*;

use crate::regex::{cut, found_in, law_choice, spans, spans_all, Pat};
use crate::regex_parser::{
    alt_at, alt_more, atom_at, bounds_at, brace_at, cat_more, class_at, class_escape, class_more,
    compiled, digits_end, escape, is_at, is_operator, no_operand_message, number_at, rep_at,
    trailing_message, with_held,
};
use crate::text::{begins_with, contains_text, is_digit, occurs_at};

verus! {

/// `c` means itself wherever it stands outside of a class.
pub open spec fn is_plain(c: char) -> bool {
    !is_operator(c) && c != '(' && c != ')' && c != '[' && c != '.' && c != '^' && c != '$' && c
        != '\\'
}

/// A character as an expression.
pub open spec fn literal_of(c: char) -> Pat {
    Pat::Lit(c)
}

/// The characters `cs` as parts of an expression.
pub open spec fn literals(cs: Seq<char>) -> Seq<Pat>
    decreases cs.len(),
{
    if cs.len() == 0 {
        seq![]
    } else {
        literals(cs.drop_last()).push(literal_of(cs.last()))
    }
}

/// A character as it is written in a pattern: with a backslash before it where it
/// would otherwise mean something else, and with `closing` also before `]` and `}`.
pub open spec fn quoted_char(c: char, closing: bool) -> Seq<char> {
    if is_plain(c) && !(closing && (c == ']' || c == '}')) {
        seq![c]
    } else {
        seq!['\\', c]
    }
}

/// A text as it is written in a pattern.
pub open spec fn quoted(text: Seq<char>, closing: bool) -> Seq<char>
    decreases text.len(),
{
    if text.len() == 0 {
        seq![]
    } else {
        quoted(text.drop_last(), closing) + quoted_char(text.last(), closing)
    }
}

/// `s` ends with `back`.
pub open spec fn finishes_with(s: Seq<char>, back: Seq<char>) -> bool {
    back.len() <= s.len() && s.skip(s.len() - back.len()) == back
}

/// A pattern in which a text is written, with or without a backslash before `]` and `}`,
/// is found exactly in the texts that contain it.
pub proof fn law_quoted_pattern(t: Seq<char>, closing: bool, text: Seq<char>)
    ensures
        compiled(quoted(t, closing)) is Ok,
        found_in(compiled(quoted(t, closing))->Ok_0, text) <==> contains_text(text, t),
{
    let w = quoted(t, closing);
    assert(framed(t, closing, false, false) =~= w);
    lemma_framed(t, closing, false, false, text);
    let p = compiled(w)->Ok_0;
    if contains_text(text, t) {
        let at = choose|at: int| occurs_at(text, t, at);
        assert(spans(p, text, at, at + t.len()));
    }
}

/// A pattern without special characters is found exactly in the texts that
/// contain it.
pub proof fn law_plain_pattern(cs: Seq<char>, text: Seq<char>)
    requires
        forall|k: int| 0 <= k < cs.len() ==> is_plain(#[trigger] cs[k]),
    ensures
        compiled(cs) is Ok,
        found_in(compiled(cs)->Ok_0, text) <==> contains_text(text, cs),
{
    lemma_quoted_plain(cs);
    law_quoted_pattern(cs, false, text);
}

/// A text behind `^` is found exactly in the texts that begin with it, a text before `$`
/// in those that end with it, and a text between the two in itself alone.
pub proof fn law_quoted_anchors(t: Seq<char>, closing: bool, text: Seq<char>)
    ensures
        compiled(seq!['^'] + quoted(t, closing)) is Ok,
        found_in(compiled(seq!['^'] + quoted(t, closing))->Ok_0, text) <==> begins_with(text, t),
        compiled(quoted(t, closing) + seq!['$']) is Ok,
        found_in(compiled(quoted(t, closing) + seq!['$'])->Ok_0, text) <==> finishes_with(text, t),
        compiled(seq!['^'] + quoted(t, closing) + seq!['$']) is Ok,
        found_in(compiled(seq!['^'] + quoted(t, closing) + seq!['$'])->Ok_0, text) <==> text == t,
{
    lemma_quoted_begin(t, closing, text);
    lemma_quoted_end(t, closing, text);
    lemma_quoted_whole(t, closing, text);
}

#[verifier::spinoff_prover]
proof fn lemma_quoted_begin(t: Seq<char>, closing: bool, text: Seq<char>)
    ensures
        compiled(seq!['^'] + quoted(t, closing)) is Ok,
        found_in(compiled(seq!['^'] + quoted(t, closing))->Ok_0, text) <==> begins_with(text, t),
{
    let w = quoted(t, closing);
    let n = t.len() as int;
    let b = seq!['^'] + w;
    assert(framed(t, closing, true, false) =~= b);
    lemma_framed(t, closing, true, false, text);
    if begins_with(text, t) {
        assert(text.subrange(0, n) =~= text.take(n));
        assert(spans(compiled(b)->Ok_0, text, 0, n));
    }
    if found_in(compiled(b)->Ok_0, text) {
        assert(text.subrange(0, n) =~= text.take(n));
    }
}

#[verifier::spinoff_prover]
proof fn lemma_quoted_end(t: Seq<char>, closing: bool, text: Seq<char>)
    ensures
        compiled(quoted(t, closing) + seq!['$']) is Ok,
        found_in(compiled(quoted(t, closing) + seq!['$'])->Ok_0, text) <==> finishes_with(text, t),
{
    let w = quoted(t, closing);
    let n = t.len() as int;
    let e = w + seq!['$'];
    assert(framed(t, closing, false, true) =~= e);
    lemma_framed(t, closing, false, true, text);
    if finishes_with(text, t) {
        let at = text.len() - n;
        assert(text.subrange(at, at + n) =~= text.skip(at));
        assert(spans(compiled(e)->Ok_0, text, at, at + n));
    }
    if found_in(compiled(e)->Ok_0, text) {
        let (i, j) = choose|i: int, j: int|
            0 <= i <= text.len() && #[trigger] spans(compiled(e)->Ok_0, text, i, j);
        assert(text.subrange(i, i + n) =~= text.skip(i));
    }
}

#[verifier::spinoff_prover]
proof fn lemma_quoted_whole(t: Seq<char>, closing: bool, text: Seq<char>)
    ensures
        compiled(seq!['^'] + quoted(t, closing) + seq!['$']) is Ok,
        found_in(compiled(seq!['^'] + quoted(t, closing) + seq!['$'])->Ok_0, text) <==> text == t,
{
    let w = quoted(t, closing);
    let n = t.len() as int;
    let f = seq!['^'] + w + seq!['$'];
    assert(framed(t, closing, true, true) =~= f);
    lemma_framed(t, closing, true, true, text);
    if text == t {
        assert(text.subrange(0, n) =~= t);
        assert(spans(compiled(f)->Ok_0, text, 0, n));
    }
    if found_in(compiled(f)->Ok_0, text) {
        assert(text.subrange(0, n) =~= text);
    }
}

/// A plain text behind `^` is found exactly in the texts that begin with it, one before
/// `$` in those that end with it, and one between the two in itself alone.
pub proof fn law_plain_anchors(p: Seq<char>, text: Seq<char>)
    requires
        forall|k: int| 0 <= k < p.len() ==> is_plain(#[trigger] p[k]),
    ensures
        compiled(seq!['^'] + p) is Ok,
        found_in(compiled(seq!['^'] + p)->Ok_0, text) <==> begins_with(text, p),
        compiled(p + seq!['$']) is Ok,
        found_in(compiled(p + seq!['$'])->Ok_0, text) <==> finishes_with(text, p),
        compiled(seq!['^'] + p + seq!['$']) is Ok,
        found_in(compiled(seq!['^'] + p + seq!['$'])->Ok_0, text) <==> text == p,
{
    lemma_quoted_plain(p);
    law_quoted_anchors(p, false, text);
}

/// Two patterns with a `|` between them are found exactly where one of the two is.
pub proof fn law_choice_of_patterns(x: Seq<char>, y: Seq<char>, text: Seq<char>)
    requires
        compiled(x) is Ok,
        compiled(y) is Ok,
    ensures
        compiled(x + seq!['|'] + y) is Ok,
        found_in(compiled(x + seq!['|'] + y)->Ok_0, text) <==> found_in(compiled(x)->Ok_0, text)
            || found_in(compiled(y)->Ok_0, text),
{
    let ds = x + seq!['|'] + y;
    let d = x.len() as int + 1;
    let bx = lemma_branches(x, ds, 0, seq![]);
    let by = lemma_branches(y, ds, d, bx);
    let all = bx + by;
    assert(alt_more(ds, x.len() as int, bx) == match cat_more(ds, d, seq![]) {
        Err(e) => Err(e),
        Ok((p, q)) => if x.len() < q <= ds.len() {
            alt_more(ds, q, bx.push(p))
        } else {
            Err((seq![], q))
        },
    });
    assert(alt_more(ds, ds.len() as int, all) == Ok::<(Pat, int), (Seq<char>, int)>(
        (Pat::Alt(all), ds.len() as int),
    ));
    assert(compiled(ds) == Ok::<Pat, Seq<char>>(Pat::Alt(all)));
    law_choice(all, text);
    lemma_choice_of(bx, text);
    lemma_choice_of(by, text);
    if exists|k: int| 0 <= k < bx.len() && found_in(#[trigger] bx[k], text) {
        let k = choose|k: int| 0 <= k < bx.len() && found_in(#[trigger] bx[k], text);
        assert(found_in(all[k], text));
    }
    if exists|k: int| 0 <= k < by.len() && found_in(#[trigger] by[k], text) {
        let k = choose|k: int| 0 <= k < by.len() && found_in(#[trigger] by[k], text);
        assert(found_in(all[bx.len() + k], text));
    }
    if exists|k: int| 0 <= k < all.len() && found_in(#[trigger] all[k], text) {
        let k = choose|k: int| 0 <= k < all.len() && found_in(#[trigger] all[k], text);
        if k < bx.len() {
            assert(found_in(bx[k], text));
        } else {
            assert(found_in(by[k - bx.len()], text));
        }
    }
}

/// A pattern in which two texts are written with a `|` between them is found exactly
/// in the texts that contain one of the two.
pub proof fn law_alternatives(a: Seq<char>, b: Seq<char>, closing: bool, text: Seq<char>)
    ensures
        compiled(quoted(a, closing) + seq!['|'] + quoted(b, closing)) is Ok,
        found_in(
            compiled(quoted(a, closing) + seq!['|'] + quoted(b, closing))->Ok_0,
            text,
        ) <==> contains_text(text, a) || contains_text(text, b),
{
    law_quoted_pattern(a, closing, text);
    law_quoted_pattern(b, closing, text);
    law_choice_of_patterns(quoted(a, closing), quoted(b, closing), text);
}

/// A `)` that nothing opens is refused: a complete pattern ends before it.
pub proof fn law_unopened_group(x: Seq<char>, rest: Seq<char>)
    requires
        compiled(x) is Ok,
    ensures
        compiled(x + seq![')'] + rest) == Err::<Pat, Seq<char>>(trailing_message(x.len())),
{
    let ds = x + seq![')'] + rest;
    let bx = lemma_branches(x, ds, 0, seq![]);
    assert(ds[x.len() as int] == ')');
    assert(alt_more(ds, x.len() as int, bx) is Ok);
}

/// A quantifier behind a part that is read to its end is refused: the part has one
/// already.
pub proof fn law_second_quantifier(cs: Seq<char>, pos: int, done: Seq<Pat>)
    requires
        0 <= pos < cs.len(),
        cs[pos] != ')',
        cs[pos] != '|',
        rep_at(cs, pos) is Ok,
        pos < rep_at(cs, pos)->Ok_0.1 < cs.len(),
        is_quantifier(cs[rep_at(cs, pos)->Ok_0.1]),
    ensures
        ({
            let q = rep_at(cs, pos)->Ok_0.1;
            cat_more(cs, pos, done) == Err::<(Pat, int), (Seq<char>, int)>(
                (no_operand_message(q as nat, cs[q]), q),
            )
        }),
{
    let (p, q) = rep_at(cs, pos)->Ok_0;
    assert(cat_more(cs, pos, done) == cat_more(cs, q, done.push(p)));
    assert(atom_at(cs, q) == Err::<(Pat, int), (Seq<char>, int)>(
        (no_operand_message(q as nat, cs[q]), q),
    ));
    assert(rep_at(cs, q) == atom_at(cs, q));
}

/// Two quantifiers in a row behind a text are refused.
pub proof fn law_two_quantifiers(
    t: Seq<char>,
    closing: bool,
    first: char,
    second: char,
    rest: Seq<char>,
)
    requires
        t.len() > 0,
        first == '*' || first == '+' || first == '?',
        is_quantifier(second),
    ensures
        compiled(quoted(t, closing) + seq![first, second] + rest) == Err::<Pat, Seq<char>>(
            no_operand_message(quoted(t, closing).len() + 1, second),
        ),
{
    let w = quoted(t, closing);
    let cs = w + seq![first, second] + rest;
    let front = t.drop_last();
    let c = t.last();
    let v = quoted(front, closing);
    let pos = v.len() as int;
    assert(w == v + quoted_char(c, closing));
    assert(cs.subrange(0, pos) =~= v);
    assert(cs[pos] == quoted_char(c, closing)[0]);
    lemma_quoted_branch(cs, 0, front, closing, seq![], 0);
    assert(front.take(0) =~= Seq::<char>::empty());
    assert(quoted(front.take(0), closing).len() == 0);
    assert(Seq::<Pat>::empty() + literals(front.take(0)) =~= Seq::<Pat>::empty());
    if quoted_char(c, closing).len() == 2 {
        assert(cs[pos + 1] == c);
        assert(escape(c) == literal_of(c));
    }
    let q = w.len() as int;
    assert(atom_at(cs, pos) == Ok::<(Pat, int), (Seq<char>, int)>((literal_of(c), q)));
    assert(cs[q] == first);
    assert(cs[q + 1] == second);
    assert(rep_at(cs, pos) is Ok && rep_at(cs, pos)->Ok_0.1 == q + 1);
    law_second_quantifier(cs, pos, Seq::<Pat>::empty() + literals(front));
}

/// Two quantifiers in a row behind a pattern are refused, whatever the pattern.
pub proof fn law_quantifiers_in_a_row(
    x: Seq<char>,
    first: char,
    second: char,
    rest: Seq<char>,
)
    requires
        compiled(x) is Ok,
        first == '*' || first == '+' || first == '?',
        is_quantifier(second),
    ensures
        compiled(x + seq![first, second] + rest) is Err,
{
    let ds = x + seq![first, second] + rest;
    let n = x.len() as int;
    assert(ds[n] == first && ds[n + 1] == second);
    assert(lies_in(x, ds, 0));
    let (p, q) = cat_more(x, 0, seq![])->Ok_0;
    lemma_cat_forward(x, 0, seq![]);
    if q == n {
        lemma_cat_quantified(x, ds, 0, seq![]);
    } else {
        lemma_cat_stands(x, ds, 0, 0, seq![]);
        assert(alt_at(x, 0) == alt_more(x, q, seq![p]));
        lemma_alt_quantified(x, ds, q, seq![p]);
        assert(alt_at(ds, 0) == alt_more(ds, q, seq![p]));
    }
}

/// A group is read as the pattern between its brackets.
pub proof fn lemma_group_at(x: Seq<char>, ds: Seq<char>, d: int)
    requires
        compiled(x) is Ok,
        0 <= d,
        d + x.len() + 2 <= ds.len(),
        ds[d] == '(',
        ds.subrange(d + 1, d + 1 + x.len()) == x,
        ds[d + 1 + x.len()] == ')',
    ensures
        atom_at(ds, d) == Ok::<(Pat, int), (Seq<char>, int)>(
            (compiled(x)->Ok_0, d + x.len() + 2),
        ),
{
    let n = x.len() as int;
    assert forall|k: int| 0 <= k < n implies #[trigger] ds[d + 1 + k] == x[k] by {
        assert(ds.subrange(d + 1, d + 1 + n)[k] == ds[d + 1 + k]);
    }
    assert(stands_in(x, ds, d + 1));
    let bs = lemma_branches(x, ds, d + 1, seq![]);
    assert(Seq::<Pat>::empty() + bs =~= bs);
    let (p, q) = cat_more(ds, d + 1, seq![])->Ok_0;
    assert(Seq::<Pat>::empty().push(p) =~= seq![p]);
    assert(alt_at(ds, d + 1) == alt_more(ds, q, seq![p]));
    assert(alt_more(ds, d + 1 + n, bs) == Ok::<(Pat, int), (Seq<char>, int)>(
        (choice_of(bs), d + 1 + n),
    ));
}

/// A group that is not closed is refused.
pub proof fn law_unclosed_group(x: Seq<char>)
    requires
        compiled(x) is Ok,
    ensures
        compiled(seq!['('] + x) == Err::<Pat, Seq<char>>("缺少 )"@),
{
    let ds = seq!['('] + x;
    let n = x.len() as int;
    assert(stands_in(x, ds, 1));
    let bs = lemma_branches(x, ds, 1, seq![]);
    assert(Seq::<Pat>::empty() + bs =~= bs);
    let (p, q) = cat_more(ds, 1, seq![])->Ok_0;
    assert(Seq::<Pat>::empty().push(p) =~= seq![p]);
    assert(alt_at(ds, 1) == alt_more(ds, q, seq![p]));
    assert(alt_more(ds, 1 + n, bs) == Ok::<(Pat, int), (Seq<char>, int)>((choice_of(bs), 1 + n)));
    assert(atom_at(ds, 0) == Err::<(Pat, int), (Seq<char>, int)>(("缺少 )"@, 1 + n)));
    assert(rep_at(ds, 0) == atom_at(ds, 0));
    assert(cat_more(ds, 0, seq![]) == atom_at(ds, 0));
}

/// A backslash behind a text, with nothing behind it, is refused.
pub proof fn law_dangling_backslash(t: Seq<char>, closing: bool)
    ensures
        compiled(quoted(t, closing) + seq!['\\']) == Err::<Pat, Seq<char>>("悬空 \\"@),
{
    let w = quoted(t, closing);
    let cs = w + seq!['\\'];
    let n = w.len() as int;
    assert(cs.subrange(0, n) =~= w);
    assert(cs[n] == '\\');
    lemma_quoted_branch(cs, 0, t, closing, seq![], 0);
    assert(t.take(0) =~= Seq::<char>::empty());
    assert(quoted(t.take(0), closing).len() == 0);
    let none = Seq::<Pat>::empty();
    assert(none + literals(t.take(0)) =~= none);
    assert(atom_at(cs, n) == Err::<(Pat, int), (Seq<char>, int)>(("悬空 \\"@, n + 1)));
    assert(rep_at(cs, n) == atom_at(cs, n));
    assert(cat_more(cs, n, none + literals(t)) == atom_at(cs, n));
    assert(cat_more(cs, 0, none) == atom_at(cs, n));
}

/// Behind an atom `*` stands for any number of matches, `+` for one or more, and `?` for one
/// or none.
pub proof fn law_repeated_atom(x: Seq<char>, p: Pat, c: char)
    requires
        x.len() > 0,
        x[0] != ')',
        x[0] != '|',
        atom_at(x, 0) == Ok::<(Pat, int), (Seq<char>, int)>((p, x.len() as int)),
    ensures
        compiled(x) == Ok::<Pat, Seq<char>>(p),
        c == '*' ==> compiled(x + seq![c]) == Ok::<Pat, Seq<char>>(
            Pat::Rep(Box::new(p), 0, (usize::MAX / 2) as nat),
        ),
        c == '+' ==> compiled(x + seq![c]) == Ok::<Pat, Seq<char>>(
            Pat::Rep(Box::new(p), 1, (usize::MAX / 2) as nat),
        ),
        c == '?' ==> compiled(x + seq![c]) == Ok::<Pat, Seq<char>>(Pat::Rep(Box::new(p), 0, 1)),
{
    assert(rep_at(x, 0) == atom_at(x, 0));
    lemma_single_part(x, p);
    if c == '*' || c == '+' || c == '?' {
        let ds = x + seq![c];
        assert(ds[0] == x[0]);
        assert(ds[x.len() as int] == c);
        assert(lies_in(x, ds, 0));
        lemma_atom_stands(x, ds, 0, 0);
        lemma_single_part(ds, rep_at(ds, 0)->Ok_0.0);
    }
}

/// An atom is read as such whatever follows it, if that is no digit.
pub proof fn lemma_atom_before(x: Seq<char>, p: Pat, w: Seq<char>)
    requires
        x.len() > 0,
        atom_at(x, 0) == Ok::<(Pat, int), (Seq<char>, int)>((p, x.len() as int)),
        w.len() > 0,
        !is_digit(w[0]),
    ensures
        atom_at(x + w, 0) == Ok::<(Pat, int), (Seq<char>, int)>((p, x.len() as int)),
{
    let ds = x + w;
    assert(ds[x.len() as int] == w[0]);
    assert(lies_in(x, ds, 0));
    lemma_atom_stands(x, ds, 0, 0);
}

/// A pattern of one part stands for that part.
pub proof fn lemma_single_part(cs: Seq<char>, p: Pat)
    requires
        cs.len() > 0,
        cs[0] != ')',
        cs[0] != '|',
        rep_at(cs, 0) == Ok::<(Pat, int), (Seq<char>, int)>((p, cs.len() as int)),
    ensures
        compiled(cs) == Ok::<Pat, Seq<char>>(p),
{
    let n = cs.len() as int;
    let none = Seq::<Pat>::empty();
    assert(none.push(p) =~= seq![p]);
    assert(cat_more(cs, 0, none) == cat_more(cs, n, none.push(p)));
    assert(cat_more(cs, n, seq![p]) == Ok::<(Pat, int), (Seq<char>, int)>((p, n)));
    assert(alt_at(cs, 0) == alt_more(cs, n, seq![p]));
}

/// Two quantifiers stand in `ds` behind the pattern `x`.
spec fn quantified(x: Seq<char>, ds: Seq<char>) -> bool {
    let n = x.len() as int;
    &&& lies_in(x, ds, 0)
    &&& n + 1 < ds.len()
    &&& ds[n] == '*' || ds[n] == '+' || ds[n] == '?'
    &&& is_quantifier(ds[n + 1])
}

/// A quantifier cannot begin a part.
proof fn lemma_no_part(ds: Seq<char>, pos: int, done: Seq<Pat>)
    requires
        0 <= pos < ds.len(),
        is_quantifier(ds[pos]),
    ensures
        cat_more(ds, pos, done) is Err,
{
    assert(atom_at(ds, pos) is Err);
    assert(rep_at(ds, pos) is Err);
}

/// A branch that ends where two quantifiers follow is refused.
proof fn lemma_cat_quantified(x: Seq<char>, ds: Seq<char>, pos: int, done: Seq<Pat>)
    requires
        quantified(x, ds),
        0 <= pos <= x.len(),
        cat_more(x, pos, done) is Ok,
        cat_more(x, pos, done)->Ok_0.1 == x.len(),
    ensures
        cat_more(ds, pos, done) is Err,
    decreases x.len() - pos,
{
    let n = x.len() as int;
    if pos == n {
        lemma_no_part(ds, n, done);
    } else {
        assert(ds[0 + pos] == x[pos]);
        let (p, q) = rep_at(x, pos)->Ok_0;
        let (p0, q0) = atom_at(x, pos)->Ok_0;
        assert(cat_more(x, pos, done) == cat_more(x, q, done.push(p)));
        lemma_atom_stands(x, ds, 0, pos);
        if q0 == n {
            let r = rep_at(ds, pos)->Ok_0.0;
            assert(rep_at(ds, pos) is Ok && rep_at(ds, pos)->Ok_0.1 == n + 1);
            assert(cat_more(ds, pos, done) == cat_more(ds, n + 1, done.push(r)));
            lemma_no_part(ds, n + 1, done.push(r));
        } else {
            lemma_rep_stands(x, ds, 0, pos);
            lemma_cat_quantified(x, ds, q, done.push(p));
            assert(cat_more(ds, pos, done) == cat_more(ds, q, done.push(p)));
        }
    }
}

/// A choice whose last branch ends where two quantifiers follow is refused.
proof fn lemma_alt_quantified(x: Seq<char>, ds: Seq<char>, pos: int, done: Seq<Pat>)
    requires
        quantified(x, ds),
        0 <= pos < x.len(),
        alt_more(x, pos, done) is Ok,
        alt_more(x, pos, done)->Ok_0.1 == x.len(),
    ensures
        alt_more(ds, pos, done) is Err,
    decreases x.len() - pos,
{
    assert(is_at(x, pos, '|'));
    assert(ds[0 + pos] == x[pos]);
    let (p, q) = cat_more(x, pos + 1, seq![])->Ok_0;
    assert(alt_more(x, pos, done) == alt_more(x, q, done.push(p)));
    lemma_cat_forward(x, pos + 1, seq![]);
    if q == x.len() {
        lemma_cat_quantified(x, ds, pos + 1, seq![]);
    } else {
        lemma_cat_stands(x, ds, 0, pos + 1, seq![]);
        lemma_alt_quantified(x, ds, q, done.push(p));
        assert(alt_more(ds, pos, done) == alt_more(ds, q, done.push(p)));
    }
}

/// Branches as one expression.
spec fn choice_of(bs: Seq<Pat>) -> Pat {
    if bs.len() == 1 {
        bs[0]
    } else {
        Pat::Alt(bs)
    }
}

proof fn lemma_choice_of(bs: Seq<Pat>, text: Seq<char>)
    requires
        bs.len() > 0,
    ensures
        found_in(choice_of(bs), text) <==> exists|k: int|
            0 <= k < bs.len() && found_in(#[trigger] bs[k], text),
{
    law_choice(bs, text);
    if found_in(bs[0], text) {
        assert(0 <= 0 < bs.len() && found_in(bs[0], text));
    }
}

/// The pattern `cs` stands in `ds` from `d` on, with no digit behind it.
spec fn lies_in(cs: Seq<char>, ds: Seq<char>, d: int) -> bool {
    &&& 0 <= d
    &&& d + cs.len() <= ds.len()
    &&& forall|k: int| 0 <= k < cs.len() ==> #[trigger] ds[d + k] == cs[k]
    &&& d + cs.len() == ds.len() || !is_digit(ds[d + cs.len()])
}

/// The pattern `cs` stands in `ds` from `d` on, and a branch or a group ends behind it.
spec fn stands_in(cs: Seq<char>, ds: Seq<char>, d: int) -> bool {
    &&& lies_in(cs, ds, d)
    &&& d + cs.len() == ds.len() || ds[d + cs.len()] == '|' || ds[d + cs.len()] == ')'
}

/// What is read of a branch does not end before it starts.
proof fn lemma_cat_forward(cs: Seq<char>, pos: int, done: Seq<Pat>)
    requires
        0 <= pos <= cs.len(),
        cat_more(cs, pos, done) is Ok,
    ensures
        pos <= cat_more(cs, pos, done)->Ok_0.1 <= cs.len(),
    decreases cs.len() - pos,
{
    if pos < cs.len() && cs[pos] != ')' && cs[pos] != '|' {
        let (p, q) = rep_at(cs, pos)->Ok_0;
        assert(cat_more(cs, pos, done) == cat_more(cs, q, done.push(p)));
        lemma_cat_forward(cs, q, done.push(p));
    }
}

/// What is read of a choice does not end before it starts.
proof fn lemma_alt_forward(cs: Seq<char>, pos: int, done: Seq<Pat>)
    requires
        0 <= pos <= cs.len(),
        alt_more(cs, pos, done) is Ok,
    ensures
        pos <= alt_more(cs, pos, done)->Ok_0.1 <= cs.len(),
    decreases cs.len() - pos,
{
    if is_at(cs, pos, '|') {
        let (p, q) = cat_more(cs, pos + 1, seq![])->Ok_0;
        assert(alt_more(cs, pos, done) == alt_more(cs, q, done.push(p)));
        lemma_alt_forward(cs, q, done.push(p));
    }
}

/// The branches of a complete pattern are read where it stands in another one as they
/// are read alone.
proof fn lemma_branches(cs: Seq<char>, ds: Seq<char>, d: int, before: Seq<Pat>) -> (bs: Seq<Pat>)
    requires
        compiled(cs) is Ok,
        stands_in(cs, ds, d),
    ensures
        bs.len() > 0,
        compiled(cs)->Ok_0 == choice_of(bs),
        cat_more(ds, d, seq![]) is Ok,
        d <= cat_more(ds, d, seq![])->Ok_0.1 <= ds.len(),
        alt_more(
            ds,
            cat_more(ds, d, seq![])->Ok_0.1,
            before.push(cat_more(ds, d, seq![])->Ok_0.0),
        ) == alt_more(ds, d + cs.len(), before + bs),
{
    let (p, q) = cat_more(cs, 0, seq![])->Ok_0;
    lemma_cat_stands(cs, ds, d, 0, seq![]);
    let added = lemma_alt_stands(cs, ds, d, q, seq![p], before.push(p));
    let bs = seq![p] + added;
    assert(before.push(p) + added =~= before + bs);
    bs
}

/// The branches that follow in `cs` follow where it stands in `ds`.
proof fn lemma_alt_stands(
    cs: Seq<char>,
    ds: Seq<char>,
    d: int,
    pos: int,
    done: Seq<Pat>,
    other: Seq<Pat>,
) -> (added: Seq<Pat>)
    requires
        stands_in(cs, ds, d),
        0 <= pos <= cs.len(),
        done.len() > 0,
        alt_more(cs, pos, done) is Ok,
        alt_more(cs, pos, done)->Ok_0.1 == cs.len(),
    ensures
        alt_more(cs, pos, done)->Ok_0.0 == choice_of(done + added),
        alt_more(ds, d + pos, other) == alt_more(ds, d + cs.len(), other + added),
    decreases cs.len() - pos,
{
    if is_at(cs, pos, '|') {
        let (p, q) = cat_more(cs, pos + 1, seq![])->Ok_0;
        lemma_cat_stands(cs, ds, d, pos + 1, seq![]);
        assert(ds[d + pos] == cs[pos]);
        assert(alt_more(ds, d + pos, other) == alt_more(ds, d + q, other.push(p)));
        let more = lemma_alt_stands(cs, ds, d, q, done.push(p), other.push(p));
        let added = seq![p] + more;
        assert(done.push(p) + more =~= done + added);
        assert(other.push(p) + more =~= other + added);
        added
    } else {
        assert(done + Seq::<Pat>::empty() =~= done);
        assert(other + Seq::<Pat>::empty() =~= other);
        Seq::empty()
    }
}

proof fn lemma_cat_stands(cs: Seq<char>, ds: Seq<char>, d: int, pos: int, done: Seq<Pat>)
    requires
        lies_in(cs, ds, d),
        0 <= pos <= cs.len(),
        cat_more(cs, pos, done) is Ok,
        cat_more(cs, pos, done)->Ok_0.1 < cs.len() || stands_in(cs, ds, d),
    ensures
        cat_more(ds, d + pos, done) == Ok::<(Pat, int), (Seq<char>, int)>(
            (cat_more(cs, pos, done)->Ok_0.0, d + cat_more(cs, pos, done)->Ok_0.1),
        ),
        pos <= cat_more(cs, pos, done)->Ok_0.1 <= cs.len(),
    decreases cs.len() - pos, 2nat,
{
    if pos < cs.len() && cs[pos] != ')' && cs[pos] != '|' {
        let (p, q) = rep_at(cs, pos)->Ok_0;
        assert(ds[d + pos] == cs[pos]);
        assert(cat_more(cs, pos, done) == cat_more(cs, q, done.push(p)));
        lemma_cat_forward(cs, q, done.push(p));
        lemma_rep_stands(cs, ds, d, pos);
        lemma_cat_stands(cs, ds, d, q, done.push(p));
        assert(cat_more(ds, d + pos, done) == cat_more(ds, d + q, done.push(p)));
    } else {
        if pos < cs.len() {
            assert(ds[d + pos] == cs[pos]);
        }
    }
}

proof fn lemma_rep_stands(cs: Seq<char>, ds: Seq<char>, d: int, pos: int)
    requires
        lies_in(cs, ds, d),
        0 <= pos < cs.len(),
        rep_at(cs, pos) is Ok,
        atom_at(cs, pos)->Ok_0.1 < cs.len() || stands_in(cs, ds, d),
    ensures
        rep_at(ds, d + pos) == Ok::<(Pat, int), (Seq<char>, int)>(
            (rep_at(cs, pos)->Ok_0.0, d + rep_at(cs, pos)->Ok_0.1),
        ),
        rep_at(cs, pos)->Ok_0.1 <= cs.len(),
    decreases cs.len() - pos, 1nat,
{
    let (p, q) = atom_at(cs, pos)->Ok_0;
    lemma_atom_stands(cs, ds, d, pos);
    if q < cs.len() {
        assert(ds[d + q] == cs[q]);
        if cs[q] == '{' {
            lemma_brace_stands(cs, ds, d, q, p);
            assert(rep_at(cs, pos) == brace_at(cs, q, p));
            assert(rep_at(ds, d + pos) == brace_at(ds, d + q, p));
        }
    }
}

proof fn lemma_atom_stands(cs: Seq<char>, ds: Seq<char>, d: int, pos: int)
    requires
        lies_in(cs, ds, d),
        0 <= pos < cs.len(),
        atom_at(cs, pos) is Ok,
    ensures
        atom_at(ds, d + pos) == Ok::<(Pat, int), (Seq<char>, int)>(
            (atom_at(cs, pos)->Ok_0.0, d + atom_at(cs, pos)->Ok_0.1),
        ),
        pos < atom_at(cs, pos)->Ok_0.1 <= cs.len(),
    decreases cs.len() - pos, 0nat,
{
    assert(ds[d + pos] == cs[pos]);
    if cs[pos] == '(' {
        let (p, q) = alt_at(cs, pos + 1)->Ok_0;
        assert(is_at(cs, q, ')'));
        assert(ds[d + q] == cs[q]);
        lemma_group_stands(cs, ds, d, pos + 1);
    } else if cs[pos] == '[' {
        let neg = is_at(cs, pos + 1, '^');
        if pos + 1 < cs.len() {
            assert(ds[d + (pos + 1)] == cs[pos + 1]);
        }
        let start = if neg {
            pos + 2
        } else {
            pos + 1
        };
        assert(atom_at(cs, pos) == class_at(cs, pos));
        assert(start < cs.len());
        assert(ds[d + start] == cs[start]);
        if is_at(cs, start, ']') {
            lemma_class_stands(cs, ds, d, start + 1, neg, seq![], Some(']'));
        } else {
            lemma_class_stands(cs, ds, d, start, neg, seq![], None);
        }
        assert(atom_at(ds, d + pos) == class_at(ds, d + pos));
    } else if cs[pos] == '\\' {
        assert(ds[d + (pos + 1)] == cs[pos + 1]);
    }
}

/// A group is read where the pattern stands in another one as it is read alone.
proof fn lemma_group_stands(cs: Seq<char>, ds: Seq<char>, d: int, pos: int)
    requires
        lies_in(cs, ds, d),
        0 <= pos <= cs.len(),
        alt_at(cs, pos) is Ok,
        alt_at(cs, pos)->Ok_0.1 < cs.len(),
    ensures
        alt_at(ds, d + pos) == Ok::<(Pat, int), (Seq<char>, int)>(
            (alt_at(cs, pos)->Ok_0.0, d + alt_at(cs, pos)->Ok_0.1),
        ),
        pos <= alt_at(cs, pos)->Ok_0.1,
    decreases cs.len() - pos, 4nat,
{
    let (p, q) = cat_more(cs, pos, seq![])->Ok_0;
    assert(alt_at(cs, pos) == alt_more(cs, q, seq![p]));
    lemma_alt_forward(cs, q, seq![p]);
    lemma_cat_stands(cs, ds, d, pos, seq![]);
    lemma_group_more(cs, ds, d, q, seq![p]);
    assert(alt_at(ds, d + pos) == alt_more(ds, d + q, seq![p]));
}

proof fn lemma_group_more(cs: Seq<char>, ds: Seq<char>, d: int, pos: int, done: Seq<Pat>)
    requires
        lies_in(cs, ds, d),
        0 <= pos <= cs.len(),
        alt_more(cs, pos, done) is Ok,
        alt_more(cs, pos, done)->Ok_0.1 < cs.len(),
    ensures
        alt_more(ds, d + pos, done) == Ok::<(Pat, int), (Seq<char>, int)>(
            (alt_more(cs, pos, done)->Ok_0.0, d + alt_more(cs, pos, done)->Ok_0.1),
        ),
        pos <= alt_more(cs, pos, done)->Ok_0.1,
    decreases cs.len() - pos, 3nat,
{
    if is_at(cs, pos, '|') {
        let (p, q) = cat_more(cs, pos + 1, seq![])->Ok_0;
        assert(ds[d + pos] == cs[pos]);
        assert(alt_more(cs, pos, done) == alt_more(cs, q, done.push(p)));
        lemma_alt_forward(cs, q, done.push(p));
        lemma_cat_stands(cs, ds, d, pos + 1, seq![]);
        lemma_group_more(cs, ds, d, q, done.push(p));
        assert(alt_more(ds, d + pos, done) == alt_more(ds, d + q, done.push(p)));
    } else {
        assert(pos < cs.len());
        assert(ds[d + pos] == cs[pos]);
    }
}

proof fn lemma_class_stands(
    cs: Seq<char>,
    ds: Seq<char>,
    d: int,
    pos: int,
    neg: bool,
    rs: Seq<(char, char)>,
    held: Option<char>,
)
    requires
        lies_in(cs, ds, d),
        0 <= pos,
        class_more(cs, pos, neg, rs, held) is Ok,
    ensures
        class_more(ds, d + pos, neg, rs, held) == Ok::<(Pat, int), (Seq<char>, int)>(
            (
                class_more(cs, pos, neg, rs, held)->Ok_0.0,
                d + class_more(cs, pos, neg, rs, held)->Ok_0.1,
            ),
        ),
        pos < class_more(cs, pos, neg, rs, held)->Ok_0.1 <= cs.len(),
    decreases cs.len() - pos,
{
    assert(pos < cs.len());
    assert(ds[d + pos] == cs[pos]);
    if cs[pos] == ']' {
    } else if cs[pos] == '\\' {
        assert(ds[d + (pos + 1)] == cs[pos + 1]);
        lemma_class_stands(
            cs,
            ds,
            d,
            pos + 2,
            neg,
            with_held(rs, held) + class_escape(cs[pos + 1]),
            None,
        );
    } else if cs[pos] == '-' && held is Some {
        let lo = held->0;
        if pos + 1 < cs.len() {
            assert(ds[d + (pos + 1)] == cs[pos + 1]);
        }
        if pos + 1 < cs.len() && cs[pos + 1] != ']' {
            lemma_class_stands(cs, ds, d, pos + 2, neg, rs.push((lo, cs[pos + 1])), None);
        } else {
            lemma_class_stands(
                cs,
                ds,
                d,
                pos + 1,
                neg,
                rs.push((lo, lo)).push(('-', '-')),
                None,
            );
        }
    } else {
        lemma_class_stands(cs, ds, d, pos + 1, neg, with_held(rs, held), Some(cs[pos]));
    }
}

proof fn lemma_digits_stand(cs: Seq<char>, ds: Seq<char>, d: int, pos: int)
    requires
        lies_in(cs, ds, d),
        0 <= pos <= cs.len(),
    ensures
        digits_end(ds, d + pos) == d + digits_end(cs, pos),
        pos <= digits_end(cs, pos) <= cs.len(),
    decreases cs.len() - pos,
{
    if pos < cs.len() {
        assert(ds[d + pos] == cs[pos]);
        if is_digit(cs[pos]) {
            lemma_digits_stand(cs, ds, d, pos + 1);
        }
    }
}

proof fn lemma_number_stands(cs: Seq<char>, ds: Seq<char>, d: int, pos: int)
    requires
        lies_in(cs, ds, d),
        0 <= pos <= cs.len(),
        number_at(cs, pos) is Ok,
    ensures
        number_at(ds, d + pos) == Ok::<(Option<nat>, int), (Seq<char>, int)>(
            (number_at(cs, pos)->Ok_0.0, d + number_at(cs, pos)->Ok_0.1),
        ),
        pos <= number_at(cs, pos)->Ok_0.1 <= cs.len(),
{
    lemma_digits_stand(cs, ds, d, pos);
    let end = digits_end(cs, pos);
    let a = ds.subrange(d + pos, d + end);
    let b = cs.subrange(pos, end);
    assert forall|k: int| 0 <= k < b.len() implies #[trigger] a[k] == b[k] by {
        assert(ds[d + (pos + k)] == cs[pos + k]);
    }
    assert(a =~= b);
}

proof fn lemma_brace_stands(cs: Seq<char>, ds: Seq<char>, d: int, pos: int, p: Pat)
    requires
        lies_in(cs, ds, d),
        0 <= pos < cs.len(),
        brace_at(cs, pos, p) is Ok,
    ensures
        brace_at(ds, d + pos, p) == Ok::<(Pat, int), (Seq<char>, int)>(
            (brace_at(cs, pos, p)->Ok_0.0, d + brace_at(cs, pos, p)->Ok_0.1),
        ),
        brace_at(cs, pos, p)->Ok_0.1 <= cs.len(),
{
    assert(bounds_at(cs, pos + 1) is Ok);
    lemma_number_stands(cs, ds, d, pos + 1);
    let q = number_at(cs, pos + 1)->Ok_0.1;
    if q < cs.len() {
        assert(ds[d + q] == cs[q]);
        if cs[q] == ',' {
            lemma_number_stands(cs, ds, d, q + 1);
        }
    }
    let end = bounds_at(cs, pos + 1)->Ok_0.1;
    assert(is_at(cs, end, '}'));
    assert(ds[d + end] == cs[end]);
}

/// A text as it is written in a pattern, behind `^` or before `$`.
spec fn framed(t: Seq<char>, closing: bool, begin: bool, end: bool) -> Seq<char> {
    let w = quoted(t, closing);
    let front = if begin {
        seq!['^']
    } else {
        seq![]
    };
    let back = if end {
        seq!['$']
    } else {
        seq![]
    };
    front + w + back
}

/// Parts as one expression.
spec fn branch_of(ps: Seq<Pat>) -> Pat {
    if ps.len() == 0 {
        Pat::Empty
    } else if ps.len() == 1 {
        ps[0]
    } else {
        Pat::Cat(ps)
    }
}

/// A branch matches as its parts do one after the other.
proof fn lemma_branch(ps: Seq<Pat>, text: Seq<char>, i: int, j: int)
    ensures
        spans(branch_of(ps), text, i, j) <==> spans_all(ps, text, i, j),
{
    if ps.len() == 1 {
        let front = ps.drop_last();
        assert(cut(i) && spans_all(front, text, i, i));
        if spans_all(ps, text, i, j) {
            let k = choose|k: int| #[trigger]
                cut(k) && spans_all(front, text, i, k) && spans(ps.last(), text, k, j);
            assert(k == i);
        }
        if spans(ps[0], text, i, j) {
            assert(spans(ps.last(), text, i, j));
            assert(spans_all(ps, text, i, j));
        }
    }
}

/// `^` before other parts leaves the matches from the beginning on.
proof fn lemma_begin_before(ps: Seq<Pat>, text: Seq<char>, i: int, j: int)
    ensures
        spans_all(seq![Pat::Begin] + ps, text, i, j) <==> i == 0 && spans_all(ps, text, 0, j),
    decreases ps.len(),
{
    let all = seq![Pat::Begin] + ps;
    if ps.len() == 0 {
        assert(all.drop_last() =~= Seq::<Pat>::empty());
        assert(all.last() == Pat::Begin);
        if spans_all(all, text, i, j) {
            let k = choose|k: int| #[trigger]
                cut(k) && spans_all(all.drop_last(), text, i, k) && spans(all.last(), text, k, j);
            assert(k == i);
        }
        if i == 0 && j == 0 {
            assert(cut(0) && spans_all(all.drop_last(), text, 0, 0) && spans(
                all.last(),
                text,
                0,
                0,
            ));
        }
    } else {
        let front = ps.drop_last();
        assert(all.drop_last() =~= seq![Pat::Begin] + front);
        assert(all.last() == ps.last());
        if spans_all(all, text, i, j) {
            let k = choose|k: int| #[trigger]
                cut(k) && spans_all(all.drop_last(), text, i, k) && spans(all.last(), text, k, j);
            lemma_begin_before(front, text, i, k);
            assert(cut(k) && spans_all(front, text, 0, k) && spans(ps.last(), text, k, j));
        }
        if i == 0 && spans_all(ps, text, 0, j) {
            let k = choose|k: int| #[trigger]
                cut(k) && spans_all(front, text, 0, k) && spans(ps.last(), text, k, j);
            lemma_begin_before(front, text, i, k);
            assert(cut(k) && spans_all(all.drop_last(), text, i, k) && spans(
                all.last(),
                text,
                k,
                j,
            ));
        }
    }
}

/// `$` behind other parts leaves the matches up to the end.
proof fn lemma_end_behind(ps: Seq<Pat>, text: Seq<char>, i: int, j: int)
    ensures
        spans_all(ps.push(Pat::End), text, i, j) <==> j == text.len() && spans_all(
            ps,
            text,
            i,
            j,
        ),
{
    let all = ps.push(Pat::End);
    assert(all.drop_last() =~= ps);
    if spans_all(all, text, i, j) {
        let k = choose|k: int| #[trigger]
            cut(k) && spans_all(all.drop_last(), text, i, k) && spans(all.last(), text, k, j);
        assert(k == j);
    }
    if j == text.len() && spans_all(ps, text, i, j) {
        assert(cut(j) && spans_all(all.drop_last(), text, i, j) && spans(all.last(), text, j, j));
    }
}

/// What is read of a text that is written behind `^` or before `$`, and what it matches.
proof fn lemma_framed(t: Seq<char>, closing: bool, begin: bool, end: bool, text: Seq<char>)
    ensures
        compiled(framed(t, closing, begin, end)) is Ok,
        forall|i: int, j: int|
            0 <= i <= text.len() ==> (#[trigger] spans(
                compiled(framed(t, closing, begin, end))->Ok_0,
                text,
                i,
                j,
            ) <==> occurs_at(text, t, i) && j == i + t.len() && (begin ==> i == 0) && (end ==> j
                == text.len())),
{
    let cs = framed(t, closing, begin, end);
    let w = quoted(t, closing);
    let at: int = if begin {
        1
    } else {
        0
    };
    let stop = at + w.len();
    let front = if begin {
        seq![Pat::Begin]
    } else {
        seq![]
    };
    assert(cs.subrange(at, stop) =~= w);
    lemma_first_char(t, closing);
    assert(w.len() > 0 ==> cs[at] == w[0]);
    if begin {
        assert(cs[0] == '^');
        assert(rep_at(cs, 0) == Ok::<(Pat, int), (Seq<char>, int)>((Pat::Begin, 1)));
        assert(Seq::<Pat>::empty().push(Pat::Begin) =~= front);
        assert(cat_more(cs, 0, seq![]) == cat_more(cs, 1, front));
    }
    assert(t.take(0) =~= Seq::<char>::empty());
    assert(front + literals(t.take(0)) =~= front);
    assert(quoted(t.take(0), closing).len() == 0);
    lemma_quoted_branch(cs, at, t, closing, front, 0);
    let mid = front + literals(t);
    let ps = if end {
        mid.push(Pat::End)
    } else {
        mid
    };
    if end {
        assert(cs[stop] == '$');
        assert(rep_at(cs, stop) == Ok::<(Pat, int), (Seq<char>, int)>((Pat::End, stop + 1)));
        assert(cat_more(cs, stop, mid) == cat_more(cs, stop + 1, ps));
    }
    let p = branch_of(ps);
    assert(cat_more(cs, cs.len() as int, ps) == Ok::<(Pat, int), (Seq<char>, int)>(
        (p, cs.len() as int),
    ));
    assert(cat_more(cs, 0, seq![]) == cat_more(cs, cs.len() as int, ps));
    assert(alt_more(cs, cs.len() as int, seq![p]) == Ok::<(Pat, int), (Seq<char>, int)>(
        (p, cs.len() as int),
    ));
    assert(compiled(cs) == Ok::<Pat, Seq<char>>(p));
    assert forall|i: int, j: int| 0 <= i <= text.len() implies (#[trigger] spans(p, text, i, j)
        <==> occurs_at(text, t, i) && j == i + t.len() && (begin ==> i == 0) && (end ==> j
        == text.len())) by {
        lemma_branch(ps, text, i, j);
        if end {
            lemma_end_behind(mid, text, i, j);
        }
        if begin {
            lemma_begin_before(literals(t), text, i, j);
            lemma_literals(t, text, 0, j);
        } else {
            assert(mid =~= literals(t));
        }
        lemma_literals(t, text, i, j);
    }
}

/// What is written of a text begins with no quantifier.
proof fn lemma_first_char(t: Seq<char>, closing: bool)
    ensures
        t.len() > 0 ==> quoted(t, closing).len() > 0 && !is_operator(quoted(t, closing)[0])
            && quoted(t, closing)[0] != ')',
        t.len() == 0 ==> quoted(t, closing).len() == 0,
{
    if t.len() > 0 {
        lemma_quoted_prefix(t, closing, 1);
        let one = t.take(1);
        assert(one.drop_last() =~= Seq::<char>::empty());
        assert(quoted(one.drop_last(), closing) =~= Seq::<char>::empty());
        assert(quoted(one, closing) =~= quoted_char(t[0], closing));
        assert(quoted(t, closing).take(quoted(one, closing).len() as int)[0] == quoted(
            t,
            closing,
        )[0]);
    }
}

proof fn lemma_quoted_plain(cs: Seq<char>)
    requires
        forall|k: int| 0 <= k < cs.len() ==> is_plain(#[trigger] cs[k]),
    ensures
        quoted(cs, false) == cs,
    decreases cs.len(),
{
    if cs.len() > 0 {
        lemma_quoted_plain(cs.drop_last());
        assert(is_plain(cs[cs.len() - 1]));
        assert(cs.drop_last() + seq![cs.last()] =~= cs);
    } else {
        assert(quoted(cs, false) =~= cs);
    }
}

/// The beginning of a text is written at the beginning of the pattern.
proof fn lemma_quoted_prefix(t: Seq<char>, closing: bool, k: int)
    requires
        0 <= k <= t.len(),
    ensures
        quoted(t.take(k), closing).len() <= quoted(t, closing).len(),
        quoted(t, closing).take(quoted(t.take(k), closing).len() as int) == quoted(
            t.take(k),
            closing,
        ),
    decreases t.len(),
{
    let n = quoted(t.take(k), closing).len() as int;
    if k == t.len() {
        assert(t.take(k) =~= t);
        assert(quoted(t, closing).take(n) =~= quoted(t, closing));
    } else {
        let front = t.drop_last();
        assert(front.take(k) =~= t.take(k));
        lemma_quoted_prefix(front, closing, k);
        assert(quoted(t, closing).take(n) =~= quoted(front, closing).take(n));
    }
}

/// `c` repeats what stands before it.
pub open spec fn is_quantifier(c: char) -> bool {
    c == '*' || c == '+' || c == '?' || c == '{'
}

/// A text that is written in the pattern from `at` on, with no quantifier behind it, is
/// read as literals, which come behind the parts `done`.
proof fn lemma_quoted_branch(
    cs: Seq<char>,
    at: int,
    t: Seq<char>,
    closing: bool,
    done: Seq<Pat>,
    k: int,
)
    requires
        0 <= k <= t.len(),
        0 <= at,
        at + quoted(t, closing).len() <= cs.len(),
        cs.subrange(at, at + quoted(t, closing).len()) == quoted(t, closing),
        at + quoted(t, closing).len() == cs.len() || !is_quantifier(
            cs[at + quoted(t, closing).len()],
        ),
    ensures
        cat_more(cs, at + quoted(t.take(k), closing).len(), done + literals(t.take(k)))
            == cat_more(cs, at + quoted(t, closing).len(), done + literals(t)),
    decreases t.len() - k,
{
    let whole = quoted(t, closing);
    if k < t.len() {
        let c = t[k];
        let part = quoted(t.take(k + 1), closing);
        let pos = quoted(t.take(k), closing).len() as int;
        let next = part.len() as int;
        assert(t.take(k + 1).drop_last() =~= t.take(k));
        assert(part == quoted(t.take(k), closing) + quoted_char(c, closing));
        lemma_quoted_prefix(t, closing, k + 1);
        assert forall|m: int| 0 <= m < next implies cs[at + m] == #[trigger] part[m] by {
            assert(whole.take(next)[m] == whole[m]);
            assert(cs.subrange(at, at + whole.len())[m] == cs[at + m]);
        }
        assert(cs[at + pos] == part[pos]);
        assert(cs[at + pos] == quoted_char(c, closing)[0]);
        if quoted_char(c, closing).len() == 2 {
            assert(cs[at + pos + 1] == part[pos + 1]);
            assert(cs[at + pos + 1] == c);
            assert(escape(c) == literal_of(c));
        }
        assert(atom_at(cs, at + pos) == Ok::<(Pat, int), (Seq<char>, int)>(
            (literal_of(c), at + next),
        ));
        if k + 1 < t.len() {
            let d = t[k + 1];
            let longer = quoted(t.take(k + 2), closing);
            lemma_quoted_prefix(t, closing, k + 2);
            assert(t.take(k + 2).drop_last() =~= t.take(k + 1));
            assert(longer == part + quoted_char(d, closing));
            assert(whole.take(longer.len() as int)[next] == whole[next]);
            assert(cs.subrange(at, at + whole.len())[next] == cs[at + next]);
            assert(cs[at + next] == quoted_char(d, closing)[0]);
        } else {
            assert(t.take(k + 1) =~= t);
        }
        assert(rep_at(cs, at + pos) == atom_at(cs, at + pos));
        assert((done + literals(t.take(k))).push(literal_of(c)) =~= done + literals(
            t.take(k + 1),
        ));
        assert(cat_more(cs, at + pos, done + literals(t.take(k))) == cat_more(
            cs,
            at + next,
            done + literals(t.take(k + 1)),
        ));
        lemma_quoted_branch(cs, at, t, closing, done, k + 1);
    } else {
        assert(t.take(k) =~= t);
    }
}

proof fn lemma_literals(cs: Seq<char>, text: Seq<char>, i: int, j: int)
    requires
        0 <= i <= text.len(),
    ensures
        spans_all(literals(cs), text, i, j) <==> occurs_at(text, cs, i) && j == i + cs.len(),
    decreases cs.len(),
{
    let ps = literals(cs);
    if cs.len() == 0 {
        assert(text.subrange(i, i) =~= cs);
    } else {
        let front = cs.drop_last();
        assert(ps.drop_last() =~= literals(front));
        if spans_all(ps, text, i, j) {
            let k = choose|k: int| #[trigger]
                cut(k) && spans_all(ps.drop_last(), text, i, k) && spans(ps.last(), text, k, j);
            lemma_literals(front, text, i, k);
            assert(text.subrange(i, i + cs.len()) =~= cs) by {
                assert forall|m: int| 0 <= m < cs.len() implies text[i + m] == #[trigger] cs[m] by {
                    if m < cs.len() - 1 {
                        assert(text.subrange(i, i + front.len())[m] == front[m]);
                    }
                }
            }
        }
        if occurs_at(text, cs, i) && j == i + cs.len() {
            let k = i + front.len();
            assert(text.subrange(i, i + cs.len())[cs.len() - 1] == cs.last());
            assert(text.subrange(i, k) =~= front) by {
                assert forall|m: int| 0 <= m < front.len() implies text[i + m]
                    == #[trigger] front[m] by {
                    assert(text.subrange(i, i + cs.len())[m] == cs[m]);
                }
            }
            lemma_literals(front, text, i, k);
            assert(cut(k));
            assert(spans(ps.last(), text, k, j));
        }
    }
}

} // verus!
