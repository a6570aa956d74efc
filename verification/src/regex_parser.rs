//! Reading a regular expression: a recursive-descent parser for the subset
//! `. * + ? | ( ) [ ] ^ $ \d \w \s \D \W \S {m,n}`.
//!
//! The spec functions `*_at` say what stands in the pattern from a position on:
//! the part of the expression that is read there and the position behind it, or
//! the message of the error and the position at which reading stopped.

use vstd::prelude::*;

use crate::regex::{pats, Pat, Rx, SimpleRegex};
use crate::text::{chars_of, decimal, decimal_text, is_digit, number, parse_number};

verus! {

/// What is read from a position on: a part of the expression and the position
/// behind it, or an error message and the position where reading stopped.
pub type Read = Result<(Pat, int), (Seq<char>, int)>;

/// The character `c` stands at `pos`.
pub open spec fn is_at(cs: Seq<char>, pos: int, c: char) -> bool {
    0 <= pos < cs.len() && cs[pos] == c
}

/// Branches separated by `|`.
pub open spec fn alt_at(cs: Seq<char>, pos: int) -> Read
    decreases cs.len() - pos, 4nat,
{
    match cat_more(cs, pos, seq![]) {
        Err(e) => Err(e),
        // what is read never ends before it starts, nor beyond the pattern
        Ok((p, q)) => if pos <= q <= cs.len() {
            alt_more(cs, q, seq![p])
        } else {
            Err((seq![], q))
        },
    }
}

/// The branches `done` and those that follow at `pos`.
pub open spec fn alt_more(cs: Seq<char>, pos: int, done: Seq<Pat>) -> Read
    decreases cs.len() - pos, 3nat,
{
    if is_at(cs, pos, '|') {
        match cat_more(cs, pos + 1, seq![]) {
            Err(e) => Err(e),
            Ok((p, q)) => if pos < q <= cs.len() {
                alt_more(cs, q, done.push(p))
            } else {
                Err((seq![], q))
            },
        }
    } else if done.len() == 1 {
        Ok((done[0], pos))
    } else {
        Ok((Pat::Alt(done), pos))
    }
}

/// The parts `done` of one branch and those that follow at `pos`.
pub open spec fn cat_more(cs: Seq<char>, pos: int, done: Seq<Pat>) -> Read
    decreases cs.len() - pos, 2nat,
{
    if 0 <= pos < cs.len() && cs[pos] != ')' && cs[pos] != '|' {
        match rep_at(cs, pos) {
            Err(e) => Err(e),
            Ok((p, q)) => if pos < q <= cs.len() {
                cat_more(cs, q, done.push(p))
            } else {
                Err((seq![], q))
            },
        }
    } else if done.len() == 0 {
        Ok((Pat::Empty, pos))
    } else if done.len() == 1 {
        Ok((done[0], pos))
    } else {
        Ok((Pat::Cat(done), pos))
    }
}

/// The most rounds of a repetition without an upper bound.
pub open spec fn unbounded() -> nat {
    (usize::MAX / 2) as nat
}

/// An atom and the repetition behind it.
pub open spec fn rep_at(cs: Seq<char>, pos: int) -> Read
    decreases cs.len() - pos, 1nat,
{
    match atom_at(cs, pos) {
        Err(e) => Err(e),
        Ok((p, q)) => if is_at(cs, q, '*') {
            Ok((Pat::Rep(Box::new(p), 0, unbounded()), q + 1))
        } else if is_at(cs, q, '+') {
            Ok((Pat::Rep(Box::new(p), 1, unbounded()), q + 1))
        } else if is_at(cs, q, '?') {
            Ok((Pat::Rep(Box::new(p), 0, 1), q + 1))
        } else if is_at(cs, q, '{') {
            brace_at(cs, q, p)
        } else {
            Ok((p, q))
        },
    }
}

/// The end of the run of digits that starts at `pos`.
pub open spec fn digits_end(cs: Seq<char>, pos: int) -> int
    decreases cs.len() - pos,
{
    if 0 <= pos < cs.len() && is_digit(cs[pos]) {
        digits_end(cs, pos + 1)
    } else {
        pos
    }
}

/// The number at `pos`, if there are digits, and the position behind it.
pub open spec fn number_at(cs: Seq<char>, pos: int) -> Result<
    (Option<nat>, int),
    (Seq<char>, int),
> {
    let end = digits_end(cs, pos);
    let n = number(cs.subrange(pos, end));
    if end == pos {
        Ok((None, end))
    } else if n > usize::MAX {
        Err(("数字过大"@, end))
    } else {
        Ok((Some(n), end))
    }
}

/// The upper bound of `{m,}`: 255 rounds more than the lower one, or the largest
/// number there is.
pub open spec fn open_bound(m: nat) -> nat {
    if m + 255 <= usize::MAX {
        m + 255
    } else {
        usize::MAX as nat
    }
}

/// The bounds in `{m}`, `{m,}` or `{m,n}`, from the digits on.
pub open spec fn bounds_at(cs: Seq<char>, pos: int) -> Result<
    ((nat, nat), int),
    (Seq<char>, int),
> {
    match number_at(cs, pos) {
        Err(e) => Err(e),
        Ok((None, q)) => Err(("期望数字"@, q)),
        Ok((Some(m), q)) => if is_at(cs, q, ',') {
            match number_at(cs, q + 1) {
                Err(e) => Err(e),
                Ok((None, r)) => Ok(((m, open_bound(m)), r)),
                Ok((Some(n), r)) => if n >= m {
                    Ok(((m, n), r))
                } else {
                    Err(("{m,n} 要求 n>=m"@, r))
                },
            }
        } else {
            Ok(((m, m), q))
        },
    }
}

/// The bounds in braces at `pos`, applied to `p`.
pub open spec fn brace_at(cs: Seq<char>, pos: int, p: Pat) -> Read {
    match bounds_at(cs, pos + 1) {
        Err(e) => Err(e),
        Ok(((lo, hi), q)) => if is_at(cs, q, '}') {
            Ok((Pat::Rep(Box::new(p), lo, hi), q + 1))
        } else {
            Err(("缺少 }"@, q))
        },
    }
}

/// The characters of `\d`.
pub open spec fn digit_ranges() -> Seq<(char, char)> {
    seq![('0', '9')]
}

/// The characters of `\w`.
pub open spec fn word_ranges() -> Seq<(char, char)> {
    seq![('0', '9'), ('A', 'Z'), ('a', 'z'), ('_', '_')]
}

/// The characters of `\s`.
pub open spec fn space_ranges() -> Seq<(char, char)> {
    seq![(' ', ' '), ('\t', '\t'), ('\n', '\n'), ('\r', '\r')]
}

/// What `\` followed by `c` stands for outside of a class.
pub open spec fn escape(c: char) -> Pat {
    if c == 'd' {
        Pat::Class { neg: false, rs: digit_ranges() }
    } else if c == 'D' {
        Pat::Class { neg: true, rs: digit_ranges() }
    } else if c == 'w' {
        Pat::Class { neg: false, rs: word_ranges() }
    } else if c == 'W' {
        Pat::Class { neg: true, rs: word_ranges() }
    } else if c == 's' {
        Pat::Class { neg: false, rs: space_ranges() }
    } else if c == 'S' {
        Pat::Class { neg: true, rs: space_ranges() }
    } else {
        Pat::Lit(c)
    }
}

/// `c` can only stand behind something that it applies to.
pub open spec fn is_operator(c: char) -> bool {
    c == '*' || c == '+' || c == '?' || c == '{' || c == '|'
}

/// One atom: a group, a class, an anchor, an escape or a character.
pub open spec fn atom_at(cs: Seq<char>, pos: int) -> Read
    decreases cs.len() - pos, 0nat,
{
    if !(0 <= pos < cs.len()) {
        Err(("表达式意外结束"@, pos))
    } else if cs[pos] == '(' {
        match alt_at(cs, pos + 1) {
            Err(e) => Err(e),
            Ok((p, q)) => if is_at(cs, q, ')') {
                Ok((p, q + 1))
            } else {
                Err(("缺少 )"@, q))
            },
        }
    } else if cs[pos] == '[' {
        class_at(cs, pos)
    } else if cs[pos] == '.' {
        Ok((Pat::Dot, pos + 1))
    } else if cs[pos] == '^' {
        Ok((Pat::Begin, pos + 1))
    } else if cs[pos] == '$' {
        Ok((Pat::End, pos + 1))
    } else if cs[pos] == '\\' {
        if pos + 1 < cs.len() {
            Ok((escape(cs[pos + 1]), pos + 2))
        } else {
            Err(("悬空 \\"@, pos + 1))
        }
    } else if is_operator(cs[pos]) {
        Err((no_operand_message(pos as nat, cs[pos]), pos))
    } else {
        Ok((Pat::Lit(cs[pos]), pos + 1))
    }
}

/// The message for an operator at `pos` with nothing that it applies to.
pub open spec fn no_operand_message(pos: nat, c: char) -> Seq<char> {
    "位置 "@ + decimal(pos) + " 的 "@ + seq![c] + " 缺少左操作数"@
}

/// The ranges that `\` followed by `c` stands for inside of a class.
pub open spec fn class_escape(c: char) -> Seq<(char, char)> {
    if c == 'd' {
        digit_ranges()
    } else if c == 'w' {
        word_ranges()
    } else if c == 's' {
        space_ranges()
    } else {
        seq![(c, c)]
    }
}

/// `rs` with the character that was held back, if there is one.
pub open spec fn with_held(rs: Seq<(char, char)>, held: Option<char>) -> Seq<(char, char)> {
    match held {
        Some(c) => rs.push((c, c)),
        None => rs,
    }
}

/// A class in brackets. A `]` directly behind `[` or `[^` is an ordinary
/// character.
pub open spec fn class_at(cs: Seq<char>, pos: int) -> Read {
    let neg = is_at(cs, pos + 1, '^');
    let start = if neg {
        pos + 2
    } else {
        pos + 1
    };
    if is_at(cs, start, ']') {
        class_more(cs, start + 1, neg, seq![], Some(']'))
    } else {
        class_more(cs, start, neg, seq![], None)
    }
}

/// The rest of a class, with the ranges `rs` read so far and the character
/// `held` back because it may be the lower end of a range.
pub open spec fn class_more(
    cs: Seq<char>,
    pos: int,
    neg: bool,
    rs: Seq<(char, char)>,
    held: Option<char>,
) -> Read
    decreases cs.len() - pos,
{
    if !(0 <= pos < cs.len()) {
        Err(("字符类未闭合"@, pos))
    } else if cs[pos] == ']' {
        Ok((Pat::Class { neg, rs: with_held(rs, held) }, pos + 1))
    } else if cs[pos] == '\\' {
        if pos + 1 < cs.len() {
            class_more(
                cs,
                pos + 2,
                neg,
                with_held(rs, held) + class_escape(cs[pos + 1]),
                None,
            )
        } else {
            Err(("悬空 \\"@, pos + 1))
        }
    } else if cs[pos] == '-' && held is Some {
        let lo = held->0;
        if pos + 1 < cs.len() && cs[pos + 1] != ']' {
            if lo > cs[pos + 1] {
                Err(("字符范围倒置"@, pos + 2))
            } else {
                class_more(cs, pos + 2, neg, rs.push((lo, cs[pos + 1])), None)
            }
        } else {
            class_more(cs, pos + 1, neg, rs.push((lo, lo)).push(('-', '-')), None)
        }
    } else {
        class_more(cs, pos + 1, neg, with_held(rs, held), Some(cs[pos]))
    }
}

/// `r` and the new position `end` are what `read` says.
pub open spec fn agrees(r: Result<Rx, String>, end: int, read: Read) -> bool {
    match (r, read) {
        (Ok(rx), Ok((p, q))) => rx@ == p && end == q,
        (Err(e), Err((m, q))) => e@ == m && end == q,
        _ => false,
    }
}

/// A position in a pattern.
pub struct RxParser<'a> {
    pub cs: &'a [char],
    pub pos: usize,
}

impl<'a> RxParser<'a> {
    /// The position lies in the pattern or directly behind it.
    pub open spec fn wf(&self) -> bool {
        self.pos <= self.cs@.len()
    }

    /// The next character.
    pub fn peek(&self) -> (c: Option<char>)
        ensures
            c == if self.pos < self.cs@.len() {
                Some(self.cs@[self.pos as int])
            } else {
                None
            },
            c is Some ==> self.pos < usize::MAX,
    {
        if self.pos < self.cs.len() {
            Some(self.cs[self.pos])
        } else {
            None
        }
    }

    /// Steps over the next character if it is `c`.
    pub fn eat(&mut self, c: char) -> (yes: bool)
        ensures
            final(self).cs == old(self).cs,
            yes == is_at(old(self).cs@, old(self).pos as int, c),
            final(self).pos == if yes {
                old(self).pos + 1
            } else {
                old(self).pos as int
            },
    {
        if self.pos < self.cs.len() && self.cs[self.pos] == c {
            self.pos += 1;
            true
        } else {
            false
        }
    }

    /// Reads the number at the position, if there are digits.
    pub fn parse_num_opt(&mut self) -> (r: Result<Option<usize>, String>)
        requires
            old(self).wf(),
        ensures
            final(self).wf(),
            final(self).cs == old(self).cs,
            match (r, number_at(old(self).cs@, old(self).pos as int)) {
                (Ok(None), Ok((None, q))) => final(self).pos == q,
                (Ok(Some(n)), Ok((Some(m), q))) => n == m && final(self).pos == q,
                (Err(e), Err((m, q))) => e@ == m && final(self).pos == q,
                _ => false,
            },
            old(self).pos <= final(self).pos,
    {
        let s = self.pos;
        while self.pos < self.cs.len() && '0' <= self.cs[self.pos] && self.cs[self.pos] <= '9'
            invariant
                s == old(self).pos,
                self.cs == old(self).cs,
                s <= self.pos <= self.cs@.len(),
                forall|k: int| s <= k < self.pos ==> is_digit(#[trigger] self.cs@[k]),
                digits_end(self.cs@, s as int) == digits_end(self.cs@, self.pos as int),
            decreases self.cs@.len() - self.pos,
        {
            self.pos += 1;
        }
        if s == self.pos {
            return Ok(None);
        }
        let digits = vstd::slice::slice_subrange(self.cs, s, self.pos);
        match parse_number(digits) {
            Some(n) => Ok(Some(n)),
            None => Err("数字过大".to_owned()),
        }
    }

    /// Reads the number at the position.
    pub fn parse_num(&mut self) -> (r: Result<usize, String>)
        requires
            old(self).wf(),
        ensures
            final(self).wf(),
            final(self).cs == old(self).cs,
            match (r, number_at(old(self).cs@, old(self).pos as int)) {
                (Ok(n), Ok((Some(m), q))) => n == m && final(self).pos == q,
                (Err(e), Ok((None, q))) => e@ == "期望数字"@ && final(self).pos == q,
                (Err(e), Err((m, q))) => e@ == m && final(self).pos == q,
                _ => false,
            },
            old(self).pos <= final(self).pos,
    {
        match self.parse_num_opt() {
            Ok(Some(n)) => Ok(n),
            Ok(None) => Err("期望数字".to_owned()),
            Err(e) => Err(e),
        }
    }

    /// Reads the bounds in braces at the position and applies them to `atom`:
    /// `{m}`, `{m,}` or `{m,n}`.
    pub fn parse_brace(&mut self, atom: Rx) -> (r: Result<Rx, String>)
        requires
            old(self).wf(),
            old(self).pos < old(self).cs@.len(),
        ensures
            final(self).wf(),
            final(self).cs == old(self).cs,
            agrees(
                r,
                final(self).pos as int,
                brace_at(old(self).cs@, old(self).pos as int, atom@),
            ),
            old(self).pos < final(self).pos,
    {
        assert(self.cs.len() <= usize::MAX);
        self.pos += 1;
        let m = match self.parse_num() {
            Ok(m) => m,
            Err(e) => {
                return Err(e);
            },
        };
        let (lo, hi): (usize, usize) = if self.eat(',') {
            match self.parse_num_opt() {
                Ok(Some(n)) => {
                    if n >= m {
                        (m, n)
                    } else {
                        return Err("{m,n} 要求 n>=m".to_owned());
                    }
                },
                Ok(None) => (m, m.saturating_add(255)),
                Err(e) => {
                    return Err(e);
                },
            }
        } else {
            (m, m)
        };
        if !self.eat('}') {
            return Err("缺少 }".to_owned());
        }
        Ok(Rx::Rep(Box::new(atom), lo, hi))
    }

    /// Reads the class in brackets at the position.
    pub fn parse_class(&mut self) -> (r: Result<Rx, String>)
        requires
            old(self).wf(),
            old(self).pos < old(self).cs@.len(),
        ensures
            final(self).wf(),
            final(self).cs == old(self).cs,
            agrees(r, final(self).pos as int, class_at(old(self).cs@, old(self).pos as int)),
            old(self).pos < final(self).pos,
    {
        let ghost whole = class_at(self.cs@, self.pos as int);
        assert(self.cs.len() <= usize::MAX);
        self.pos += 1;
        let neg = self.eat('^');
        let mut rs: Vec<(char, char)> = Vec::new();
        let mut held: Option<char> = None;
        if self.eat(']') {
            held = Some(']');
        }
        loop
            invariant
                self.wf(),
                self.cs == old(self).cs,
                old(self).pos < self.pos,
                whole == class_at(old(self).cs@, old(self).pos as int),
                whole == class_more(self.cs@, self.pos as int, neg, rs@, held),
            decreases self.cs@.len() - self.pos,
        {
            let c = match self.peek() {
                None => {
                    return Err("字符类未闭合".to_owned());
                },
                Some(c) => c,
            };
            self.pos += 1;
            if c == ']' {
                if let Some(h) = held {
                    rs.push((h, h));
                }
                return Ok(Rx::Class { neg, rs });
            }
            if c == '\\' {
                let e = match self.peek() {
                    None => {
                        return Err("悬空 \\".to_owned());
                    },
                    Some(e) => e,
                };
                self.pos += 1;
                if let Some(h) = held {
                    rs.push((h, h));
                }
                let mut mapped = class_escape_ranges(e);
                rs.append(&mut mapped);
                held = None;
                continue;
            }
            match held {
                Some(lo) if c == '-' => {
                    match self.peek() {
                        Some(e) if e != ']' => {
                            self.pos += 1;
                            if lo > e {
                                return Err("字符范围倒置".to_owned());
                            }
                            rs.push((lo, e));
                        },
                        _ => {
                            rs.push((lo, lo));
                            rs.push(('-', '-'));
                        },
                    }
                    held = None;
                },
                Some(h) => {
                    rs.push((h, h));
                    held = Some(c);
                },
                None => {
                    held = Some(c);
                },
            }
        }
    }

    /// Reads one atom.
    pub fn parse_atom(&mut self) -> (r: Result<Rx, String>)
        requires
            old(self).wf(),
        ensures
            final(self).wf(),
            final(self).cs == old(self).cs,
            agrees(r, final(self).pos as int, atom_at(old(self).cs@, old(self).pos as int)),
            r is Ok ==> old(self).pos < final(self).pos,
        decreases old(self).cs@.len() - old(self).pos, 0nat,
    {
        let c = match self.peek() {
            None => {
                return Err("表达式意外结束".to_owned());
            },
            Some(c) => c,
        };
        if c == '[' {
            return self.parse_class();
        }
        if is_operator_char(c) {
            return Err(no_operand_text(self.pos, c));
        }
        self.pos += 1;
        if c == '(' {
            let inner = match self.parse_alt() {
                Ok(inner) => inner,
                Err(e) => {
                    return Err(e);
                },
            };
            if !self.eat(')') {
                return Err("缺少 )".to_owned());
            }
            return Ok(inner);
        }
        if c == '.' {
            return Ok(Rx::Dot);
        }
        if c == '^' {
            return Ok(Rx::Begin);
        }
        if c == '$' {
            return Ok(Rx::End);
        }
        if c == '\\' {
            return match self.peek() {
                Some(e) => {
                    self.pos += 1;
                    Ok(escape_node(e))
                },
                None => Err("悬空 \\".to_owned()),
            };
        }
        Ok(literal(c))
    }

    /// Reads an atom and the repetition behind it.
    pub fn parse_rep(&mut self) -> (r: Result<Rx, String>)
        requires
            old(self).wf(),
        ensures
            final(self).wf(),
            final(self).cs == old(self).cs,
            agrees(r, final(self).pos as int, rep_at(old(self).cs@, old(self).pos as int)),
            r is Ok ==> old(self).pos < final(self).pos,
        decreases old(self).cs@.len() - old(self).pos, 1nat,
    {
        let atom = match self.parse_atom() {
            Ok(atom) => atom,
            Err(e) => {
                return Err(e);
            },
        };
        match self.peek() {
            Some('*') => {
                self.pos += 1;
                Ok(Rx::Rep(Box::new(atom), 0, usize::MAX / 2))
            },
            Some('+') => {
                self.pos += 1;
                Ok(Rx::Rep(Box::new(atom), 1, usize::MAX / 2))
            },
            Some('?') => {
                self.pos += 1;
                Ok(Rx::Rep(Box::new(atom), 0, 1))
            },
            Some('{') => self.parse_brace(atom),
            _ => Ok(atom),
        }
    }

    /// Reads one branch: the parts up to a `)`, a `|` or the end.
    pub fn parse_cat(&mut self) -> (r: Result<Rx, String>)
        requires
            old(self).wf(),
        ensures
            final(self).wf(),
            final(self).cs == old(self).cs,
            agrees(
                r,
                final(self).pos as int,
                cat_more(old(self).cs@, old(self).pos as int, seq![]),
            ),
            r is Ok ==> old(self).pos <= final(self).pos,
        decreases old(self).cs@.len() - old(self).pos, 2nat,
    {
        let ghost whole = cat_more(self.cs@, self.pos as int, seq![]);
        let mut v: Vec<Rx> = Vec::new();
        assert(pats(v@) == Seq::<Pat>::empty());
        while self.pos < self.cs.len() && self.cs[self.pos] != ')' && self.cs[self.pos] != '|'
            invariant
                self.wf(),
                self.cs == old(self).cs,
                old(self).pos <= self.pos,
                whole == cat_more(old(self).cs@, old(self).pos as int, seq![]),
                whole == cat_more(self.cs@, self.pos as int, pats(v@)),
            decreases self.cs@.len() - self.pos,
        {
            match self.parse_rep() {
                Ok(part) => {
                    proof {
                        lemma_pats_push(v@, part);
                    }
                    v.push(part);
                },
                Err(e) => {
                    return Err(e);
                },
            }
        }
        proof {
            lemma_pats_shape(v@);
        }
        if v.len() == 0 {
            Ok(Rx::Empty)
        } else if v.len() == 1 {
            Ok(v.pop().unwrap())
        } else {
            Ok(Rx::Cat(v))
        }
    }

    /// Reads branches separated by `|`.
    pub fn parse_alt(&mut self) -> (r: Result<Rx, String>)
        requires
            old(self).wf(),
        ensures
            final(self).wf(),
            final(self).cs == old(self).cs,
            agrees(r, final(self).pos as int, alt_at(old(self).cs@, old(self).pos as int)),
            r is Ok ==> old(self).pos <= final(self).pos,
        decreases old(self).cs@.len() - old(self).pos, 3nat,
    {
        let ghost whole = alt_at(self.cs@, self.pos as int);
        let mut v: Vec<Rx> = Vec::new();
        match self.parse_cat() {
            Ok(branch) => {
                proof {
                    lemma_pats_push(v@, branch);
                    assert(pats(v@) == Seq::<Pat>::empty());
                    assert(pats(v@.push(branch)) == seq![branch@]);
                }
                v.push(branch);
            },
            Err(e) => {
                return Err(e);
            },
        }
        while self.pos < self.cs.len() && self.cs[self.pos] == '|'
            invariant
                self.wf(),
                self.cs == old(self).cs,
                old(self).pos <= self.pos,
                v@.len() > 0,
                whole == alt_at(old(self).cs@, old(self).pos as int),
                whole == alt_more(self.cs@, self.pos as int, pats(v@)),
            decreases self.cs@.len() - self.pos,
        {
            self.pos += 1;
            match self.parse_cat() {
                Ok(branch) => {
                    proof {
                        lemma_pats_push(v@, branch);
                    }
                    v.push(branch);
                },
                Err(e) => {
                    return Err(e);
                },
            }
        }
        proof {
            lemma_pats_shape(v@);
        }
        if v.len() == 1 {
            Ok(v.pop().unwrap())
        } else {
            Ok(Rx::Alt(v))
        }
    }
}

/// The message for characters behind a complete expression.
pub open spec fn trailing_message(pos: nat) -> Seq<char> {
    "位置 "@ + decimal(pos) + " 处有多余字符"@
}

/// The expression that a pattern stands for, or the message of its error.
pub open spec fn compiled(cs: Seq<char>) -> Result<Pat, Seq<char>> {
    match alt_at(cs, 0) {
        Err((m, _)) => Err(m),
        Ok((p, q)) => if q == cs.len() {
            Ok(p)
        } else {
            Err(trailing_message(q as nat))
        },
    }
}

impl SimpleRegex {
    /// Reads the pattern `pat`; the error is a message for the user.
    pub fn compile(pat: &str) -> (r: Result<SimpleRegex, String>)
        ensures
            match (r, compiled(pat@)) {
                (Ok(re), Ok(p)) => re.root@ == p,
                (Err(e), Err(m)) => e@ == m,
                _ => false,
            },
    {
        let cs = chars_of(pat);
        let mut p = RxParser { cs: cs.as_slice(), pos: 0 };
        let root = match p.parse_alt() {
            Ok(root) => root,
            Err(e) => {
                return Err(e);
            },
        };
        if p.pos != cs.len() {
            let mut out = "位置 ".to_owned();
            out.append(decimal_text(p.pos as u128).as_str());
            out.append(" 处有多余字符");
            return Err(out);
        }
        Ok(SimpleRegex { root })
    }
}

proof fn lemma_pats_push(v: Seq<Rx>, x: Rx)
    ensures
        pats(v.push(x)) == pats(v).push(x@),
{
    assert(pats(v.push(x)) =~= pats(v).push(x@));
}

proof fn lemma_pats_shape(v: Seq<Rx>)
    ensures
        pats(v).len() == v.len(),
        forall|k: int| 0 <= k < v.len() ==> #[trigger] pats(v)[k] == v[k]@,
{
}

fn ranges(a: (char, char)) -> (out: Vec<(char, char)>)
    ensures
        out@ == seq![a],
{
    let mut out: Vec<(char, char)> = Vec::new();
    out.push(a);
    out
}

fn word_class() -> (out: Vec<(char, char)>)
    ensures
        out@ == word_ranges(),
{
    let mut out = ranges(('0', '9'));
    out.push(('A', 'Z'));
    out.push(('a', 'z'));
    out.push(('_', '_'));
    out
}

fn space_class() -> (out: Vec<(char, char)>)
    ensures
        out@ == space_ranges(),
{
    let mut out = ranges((' ', ' '));
    out.push(('\t', '\t'));
    out.push(('\n', '\n'));
    out.push(('\r', '\r'));
    out
}

fn class_escape_ranges(c: char) -> (out: Vec<(char, char)>)
    ensures
        out@ == class_escape(c),
{
    match c {
        'd' => ranges(('0', '9')),
        'w' => word_class(),
        's' => space_class(),
        _ => ranges((c, c)),
    }
}

fn escape_node(c: char) -> (node: Rx)
    ensures
        node@ == escape(c),
{
    match c {
        'd' => Rx::Class { neg: false, rs: ranges(('0', '9')) },
        'D' => Rx::Class { neg: true, rs: ranges(('0', '9')) },
        'w' => Rx::Class { neg: false, rs: word_class() },
        'W' => Rx::Class { neg: true, rs: word_class() },
        's' => Rx::Class { neg: false, rs: space_class() },
        'S' => Rx::Class { neg: true, rs: space_class() },
        _ => Rx::Lit(c),
    }
}

fn literal(c: char) -> (node: Rx)
    ensures
        node@ == Pat::Lit(c),
{
    Rx::Lit(c)
}

fn is_operator_char(c: char) -> (yes: bool)
    ensures
        yes == is_operator(c),
{
    c == '*' || c == '+' || c == '?' || c == '{' || c == '|'
}

fn no_operand_text(pos: usize, c: char) -> (out: String)
    ensures
        out@ == no_operand_message(pos as nat, c),
{
    let mut out = "位置 ".to_owned();
    out.append(decimal_text(pos as u128).as_str());
    out.append(" 的 ");
    out.push(c);
    out.append(" 缺少左操作数");
    out
}

} // verus!
