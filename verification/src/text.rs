//! Strings as sequences of characters: the few operations on text that the
//! rest of the library is built from.

use vstd::prelude::*;
use vstd::utf8::{decode_utf8, valid_utf8};

verus! {

/// `String::push` appends one character at the end of the string.
pub assume_specification[ String::push ](s: &mut String, c: char)
    ensures
        final(s)@ == old(s)@.push(c),
;

/// What `String::from_utf8_lossy` reads in `bytes`.
pub uninterp spec fn lossy_text(bytes: Seq<u8>) -> Seq<char>;

/// Calls `String::from_utf8_lossy`: the text in `bytes`, with a replacement
/// character for what is not UTF-8. Valid UTF-8 is read as the characters that it
/// encodes.
#[verifier::external_body]
pub(crate) fn read_lossy(bytes: &[u8]) -> (out: String)
    ensures
        out@ == lossy_text(bytes@),
        valid_utf8(bytes@) ==> out@ == decode_utf8(bytes@),
{
    String::from_utf8_lossy(bytes).into_owned()
}

/// The text in `bytes`: the characters that they encode where they are UTF-8, and
/// else what is read in them with replacements.
pub open spec fn bytes_text(bytes: Seq<u8>) -> Seq<char> {
    if valid_utf8(bytes) {
        decode_utf8(bytes)
    } else {
        lossy_text(bytes)
    }
}

/// The characters of `s`, in order.
pub fn chars_of(s: &str) -> (out: Vec<char>)
    ensures
        out@ == s@,
{
    let mut out: Vec<char> = Vec::new();
    for c in it: s.chars()
        invariant
            it.seq() == s@,
            out@ == it.seq().take(it.index() as int),
    {
        out.push(c);
    }
    out
}

/// The string that holds exactly the characters `cs`.
pub fn text_of(cs: &[char]) -> (out: String)
    ensures
        out@ == cs@,
{
    let mut out = String::new();
    let mut i: usize = 0;
    while i < cs.len()
        invariant
            i <= cs.len(),
            out@ == cs@.take(i as int),
        decreases cs.len() - i,
    {
        out.push(cs[i]);
        i += 1;
    }
    assert(cs@.take(i as int) == cs@);
    out
}

/// `needle` stands in `hay` from position `at` on.
pub open spec fn occurs_at(hay: Seq<char>, needle: Seq<char>, at: int) -> bool {
    &&& 0 <= at
    &&& at + needle.len() <= hay.len()
    &&& hay.subrange(at, at + needle.len()) == needle
}

/// `needle` is a contiguous part of `hay`.
pub open spec fn contains_text(hay: Seq<char>, needle: Seq<char>) -> bool {
    exists|at: int| occurs_at(hay, needle, at)
}

/// Whether `needle` stands in `hay` from `at` on.
pub fn stands_at(hay: &[char], needle: &[char], at: usize) -> (yes: bool)
    requires
        at <= hay.len(),
    ensures
        yes == occurs_at(hay@, needle@, at as int),
{
    if needle.len() > hay.len() - at {
        return false;
    }
    let mut k: usize = 0;
    while k < needle.len()
        invariant
            k <= needle.len(),
            at <= hay.len(),
            needle.len() <= hay.len() - at,
            forall|j: int| 0 <= j < k ==> hay@[at + j] == needle@[j],
        decreases needle.len() - k,
    {
        if hay[at + k] != needle[k] {
            assert(hay@.subrange(at as int, at + needle@.len())[k as int] != needle@[k as int]);
            return false;
        }
        k += 1;
    }
    assert(hay@.subrange(at as int, at + needle@.len()) == needle@);
    true
}

/// Whether `needle` is a contiguous part of `hay`.
pub fn has_text(hay: &[char], needle: &[char]) -> (yes: bool)
    ensures
        yes == contains_text(hay@, needle@),
{
    let mut at: usize = 0;
    while at < hay.len()
        invariant
            at <= hay.len(),
            forall|i: int| 0 <= i < at ==> !occurs_at(hay@, needle@, i),
        decreases hay.len() - at,
    {
        if stands_at(hay, needle, at) {
            return true;
        }
        at += 1;
    }
    let last = stands_at(hay, needle, at);
    proof {
        if !last {
            assert forall|i: int| !occurs_at(hay@, needle@, i) by {}
        }
    }
    last
}

/// The decimal digit for a number below ten.
pub open spec fn digit_char(d: nat) -> char {
    ('0' as u32 + d) as char
}

/// `n` written in decimal, without leading zeros.
pub open spec fn decimal(n: nat) -> Seq<char>
    decreases n,
{
    if n < 10 {
        seq![digit_char(n)]
    } else {
        decimal(n / 10).push(digit_char(n % 10))
    }
}

fn digit(d: u128) -> (c: char)
    requires
        d < 10,
    ensures
        c == digit_char(d as nat),
{
    if d == 0 {
        '0'
    } else if d == 1 {
        '1'
    } else if d == 2 {
        '2'
    } else if d == 3 {
        '3'
    } else if d == 4 {
        '4'
    } else if d == 5 {
        '5'
    } else if d == 6 {
        '6'
    } else if d == 7 {
        '7'
    } else if d == 8 {
        '8'
    } else {
        '9'
    }
}

/// `n` written in decimal.
pub fn decimal_text(n: u128) -> (out: String)
    ensures
        out@ == decimal(n as nat),
    decreases n,
{
    let mut out = if n < 10 {
        String::new()
    } else {
        decimal_text(n / 10)
    };
    out.push(digit(n % 10));
    out
}

/// `c` is one of the ten ASCII digits.
pub open spec fn is_digit(c: char) -> bool {
    '0' <= c && c <= '9'
}

/// The value of a decimal digit.
pub open spec fn digit_value(c: char) -> nat {
    (c as u32 - '0' as u32) as nat
}

/// The number that a sequence of decimal digits stands for.
pub open spec fn number(digits: Seq<char>) -> nat
    decreases digits.len(),
{
    if digits.len() == 0 {
        0
    } else {
        number(digits.drop_last()) * 10 + digit_value(digits.last())
    }
}

/// A number does not get smaller by further digits.
pub proof fn lemma_number_grows(digits: Seq<char>, k: int)
    requires
        0 <= k <= digits.len(),
    ensures
        number(digits.take(k)) <= number(digits),
    decreases digits.len() - k,
{
    if k == digits.len() {
        assert(digits.take(k) == digits);
    } else {
        lemma_number_grows(digits, k + 1);
        assert(digits.take(k + 1).drop_last() == digits.take(k));
    }
}

/// The number that the digits `digits` stand for, where it fits.
pub fn parse_number(digits: &[char]) -> (out: Option<usize>)
    requires
        forall|k: int| 0 <= k < digits@.len() ==> is_digit(#[trigger] digits@[k]),
    ensures
        out == if number(digits@) <= usize::MAX {
            Some(number(digits@) as usize)
        } else {
            None::<usize>
        },
{
    let mut n: usize = 0;
    let mut k: usize = 0;
    while k < digits.len()
        invariant
            k <= digits.len(),
            forall|m: int| 0 <= m < digits@.len() ==> is_digit(#[trigger] digits@[m]),
            n == number(digits@.take(k as int)),
        decreases digits.len() - k,
    {
        proof {
            lemma_number_grows(digits@, k + 1);
            assert(digits@.take(k + 1).drop_last() == digits@.take(k as int));
            assert(is_digit(digits@[k as int]));
        }
        let d: usize = (digits[k] as u32 - '0' as u32) as usize;
        let tens = match n.checked_mul(10) {
            Some(tens) => tens,
            None => {
                return None;
            },
        };
        n = match tens.checked_add(d) {
            Some(n) => n,
            None => {
                return None;
            },
        };
        k += 1;
    }
    assert(digits@.take(k as int) == digits@);
    Some(n)
}

/// Whether two strings hold the same characters.
pub fn same_text(a: &str, b: &str) -> (yes: bool)
    ensures
        yes == (a@ == b@),
{
    let x = chars_of(a);
    let y = chars_of(b);
    if x.len() != y.len() {
        return false;
    }
    let yes = stands_at(x.as_slice(), y.as_slice(), 0);
    assert(x@.subrange(0, y@.len() as int) == x@);
    yes
}

/// `c` with an ASCII letter in upper case.
pub open spec fn upper_char(c: char) -> char {
    if 'a' <= c && c <= 'z' {
        (c as u32 - 32) as char
    } else {
        c
    }
}

/// `s` with its ASCII letters in upper case.
pub open spec fn upper(s: Seq<char>) -> Seq<char> {
    s.map_values(|c: char| upper_char(c))
}

fn to_upper(c: char) -> (u: char)
    ensures
        u == upper_char(c),
{
    if 'a' <= c && c <= 'z' {
        (c as u8 - 32) as char
    } else {
        c
    }
}

/// The characters of `cs`, with the ASCII letters in upper case.
pub fn upper_chars(cs: &[char]) -> (out: Vec<char>)
    ensures
        out@ == upper(cs@),
{
    let mut out: Vec<char> = Vec::new();
    let mut k: usize = 0;
    while k < cs.len()
        invariant
            k <= cs.len(),
            out@ == upper(cs@.take(k as int)),
        decreases cs.len() - k,
    {
        out.push(to_upper(cs[k]));
        assert(cs@.take(k + 1) == cs@.take(k as int).push(cs@[k as int]));
        k += 1;
        assert(out@ =~= upper(cs@.take(k as int)));
    }
    assert(cs@.take(k as int) == cs@);
    out
}

/// `s` with its ASCII letters in upper case.
pub fn upper_text(s: &str) -> (out: String)
    ensures
        out@ == upper(s@),
{
    text_of(upper_chars(chars_of(s).as_slice()).as_slice())
}

/// `c` is white space in the sense of Unicode.
pub open spec fn is_white(c: char) -> bool {
    ||| '\u{9}' <= c && c <= '\u{d}'
    ||| c == ' ' || c == '\u{85}' || c == '\u{a0}' || c == '\u{1680}'
    ||| '\u{2000}' <= c && c <= '\u{200a}'
    ||| c == '\u{2028}' || c == '\u{2029}' || c == '\u{202f}' || c == '\u{205f}' || c == '\u{3000}'
}

/// `s` without the white space at its front.
pub open spec fn trim_front(s: Seq<char>) -> Seq<char>
    decreases s.len(),
{
    if s.len() > 0 && is_white(s[0]) {
        trim_front(s.drop_first())
    } else {
        s
    }
}

/// `s` without the white space at its back.
pub open spec fn trim_back(s: Seq<char>) -> Seq<char>
    decreases s.len(),
{
    if s.len() > 0 && is_white(s.last()) {
        trim_back(s.drop_last())
    } else {
        s
    }
}

/// `s` without the white space at its ends.
pub open spec fn trimmed(s: Seq<char>) -> Seq<char> {
    trim_back(trim_front(s))
}

fn white(c: char) -> (yes: bool)
    ensures
        yes == is_white(c),
{
    ('\u{9}' <= c && c <= '\u{d}') || c == ' ' || c == '\u{85}' || c == '\u{a0}' || c == '\u{1680}'
        || ('\u{2000}' <= c && c <= '\u{200a}') || c == '\u{2028}' || c == '\u{2029}' || c
        == '\u{202f}' || c == '\u{205f}' || c == '\u{3000}'
}

/// `s` without the white space at its ends.
pub fn trim(s: &str) -> (out: String)
    ensures
        out@ == trimmed(s@),
{
    let cs = chars_of(s);
    let mut a: usize = 0;
    assert(cs@.skip(0) == cs@);
    while a < cs.len() && white(cs[a])
        invariant
            a <= cs.len(),
            trim_front(cs@) == trim_front(cs@.skip(a as int)),
        decreases cs.len() - a,
    {
        assert(cs@.skip(a as int).drop_first() == cs@.skip(a + 1));
        a += 1;
    }
    let mut b: usize = cs.len();
    assert(cs@.subrange(a as int, b as int) == cs@.skip(a as int));
    while a < b && white(cs[b - 1])
        invariant
            a <= b <= cs.len(),
            trimmed(cs@) == trim_back(cs@.subrange(a as int, b as int)),
        decreases b,
    {
        assert(cs@.subrange(a as int, b as int).drop_last() == cs@.subrange(a as int, b - 1));
        b -= 1;
    }
    text_of(vstd::slice::slice_subrange(cs.as_slice(), a, b))
}

/// The parts of `s` between the characters `sep`, from left to right.
pub open spec fn split<T>(s: Seq<T>, sep: T) -> Seq<Seq<T>>
    decreases s.len(),
{
    if s.len() == 0 {
        seq![seq![]]
    } else {
        let parts = split(s.drop_last(), sep);
        if s.last() == sep {
            parts.push(seq![])
        } else {
            parts.drop_last().push(parts.last().push(s.last()))
        }
    }
}

/// The views of a list of strings.
pub open spec fn texts(v: Seq<String>) -> Seq<Seq<char>> {
    v.map_values(|s: String| s@)
}

/// The parts of `s` between the characters `sep`, from left to right.
pub fn split_text(s: &str, sep: char) -> (out: Vec<String>)
    ensures
        texts(out@) == split(s@, sep),
        out@.len() > 0,
{
    let cs = chars_of(s);
    let mut out: Vec<String> = Vec::new();
    let mut part = String::new();
    let mut k: usize = 0;
    assert(texts(out@).push(part@) =~= split(cs@.take(0), sep));
    while k < cs.len()
        invariant
            k <= cs.len(),
            texts(out@).push(part@) == split(cs@.take(k as int), sep),
        decreases cs.len() - k,
    {
        assert(cs@.take(k + 1).drop_last() == cs@.take(k as int));
        let ghost before = texts(out@);
        let ghost piece = part@;
        assert(before.push(piece).drop_last() == before);
        if cs[k] == sep {
            let ghost list = out@;
            let ghost added = part;
            out.push(part);
            assert(texts(list.push(added)) =~= texts(list).push(added@));
            part = String::new();
        } else {
            part.push(cs[k]);
        }
        k += 1;
    }
    assert(cs@.take(k as int) == cs@);
    let ghost list = out@;
    let ghost added = part;
    out.push(part);
    assert(texts(list.push(added)) =~= texts(list).push(added@));
    out
}

/// `s` without the characters `c` at its back.
pub open spec fn strip_back(s: Seq<char>, c: char) -> Seq<char>
    decreases s.len(),
{
    if s.len() > 0 && s.last() == c {
        strip_back(s.drop_last(), c)
    } else {
        s
    }
}

/// `s` without the characters `c` at its front.
pub open spec fn strip_front(s: Seq<char>, c: char) -> Seq<char>
    decreases s.len(),
{
    if s.len() > 0 && s[0] == c {
        strip_front(s.drop_first(), c)
    } else {
        s
    }
}

/// `s` without the characters `c` at its back.
pub fn strip_back_text(s: &str, c: char) -> (out: String)
    ensures
        out@ == strip_back(s@, c),
{
    let cs = chars_of(s);
    let mut b: usize = cs.len();
    assert(cs@.take(b as int) == cs@);
    while b > 0 && cs[b - 1] == c
        invariant
            b <= cs.len(),
            strip_back(cs@, c) == strip_back(cs@.take(b as int), c),
        decreases b,
    {
        assert(cs@.take(b as int).drop_last() == cs@.take(b - 1));
        b -= 1;
    }
    text_of(vstd::slice::slice_subrange(cs.as_slice(), 0, b))
}

/// `s` begins with `front`.
pub open spec fn begins_with(s: Seq<char>, front: Seq<char>) -> bool {
    front.len() <= s.len() && s.take(front.len() as int) == front
}

/// Whether `s` begins with `front`.
pub fn has_front(s: &str, front: &str) -> (yes: bool)
    ensures
        yes == begins_with(s@, front@),
{
    let cs = chars_of(s);
    let fs = chars_of(front);
    let yes = stands_at(cs.as_slice(), fs.as_slice(), 0);
    assert(fs@.len() <= cs@.len() ==> cs@.subrange(0, fs@.len() as int) == cs@.take(
        fs@.len() as int,
    ));
    yes
}

} // verus!
