//! What the operations on text do, character by character.

use vstd::prelude::*;
use vstd::utf8::encode_utf8;

use crate::text::{
    begins_with, bytes_text, contains_text, decimal, digit_value, is_digit, is_white, number,
    occurs_at, split, strip_back, strip_front, texts, trim_back, trim_front, trimmed, upper,
};

verus! {

/// A text contains another one where the other stands somewhere in it.
pub proof fn law_contains(hay: Seq<char>, needle: Seq<char>)
    ensures
        contains_text(hay, needle) <==> exists|at: int|
            0 <= at && at + needle.len() <= hay.len() && #[trigger] hay.subrange(
                at,
                at + needle.len(),
            ) == needle,
{
    if contains_text(hay, needle) {
        let at = choose|at: int| occurs_at(hay, needle, at);
        assert(hay.subrange(at, at + needle.len()) == needle);
    }
    if exists|at: int|
        0 <= at && at + needle.len() <= hay.len() && #[trigger] hay.subrange(
            at,
            at + needle.len(),
        ) == needle {
        let at = choose|at: int|
            0 <= at && at + needle.len() <= hay.len() && #[trigger] hay.subrange(
                at,
                at + needle.len(),
            ) == needle;
        assert(occurs_at(hay, needle, at));
    }
}

/// A text contains whatever stands between two other parts of it.
pub proof fn law_contains_part(front: Seq<char>, needle: Seq<char>, back: Seq<char>)
    ensures
        contains_text(front + needle + back, needle),
{
    let hay = front + needle + back;
    assert(hay.subrange(front.len() as int, front.len() as int + needle.len()) =~= needle);
    assert(occurs_at(hay, needle, front.len() as int));
}

/// A text begins with another one where something follows the other in it.
pub proof fn law_begins_with(s: Seq<char>, front: Seq<char>, rest: Seq<char>)
    ensures
        begins_with(front + rest, front),
        begins_with(s, front) ==> s == front + s.skip(front.len() as int),
{
    assert((front + rest).take(front.len() as int) =~= front);
    if begins_with(s, front) {
        assert(s =~= front + s.skip(front.len() as int));
    }
}

/// In upper case the letters from `a` to `z` become those from `A` to `Z`, and the other
/// characters stay as they are.
pub proof fn law_upper(s: Seq<char>)
    ensures
        upper(s).len() == s.len(),
        forall|k: int|
            0 <= k < s.len() && 'a' <= s[k] && s[k] <= 'z' ==> (#[trigger] upper(s)[k]) as int
                == s[k] as int - 32,
        forall|k: int|
            0 <= k < s.len() && !('a' <= s[k] && s[k] <= 'z') ==> #[trigger] upper(s)[k] == s[k],
{
    assert forall|k: int| 0 <= k < s.len() && 'a' <= s[k] && s[k] <= 'z' implies (
    #[trigger] upper(s)[k]) as int == s[k] as int - 32 by {
        lemma_upper_char(s[k]);
    }
}

proof fn lemma_upper_char(c: char)
    ensures
        'a' <= c && c <= 'z' ==> crate::text::upper_char(c) as int == c as int - 32,
{
}

/// White space are the characters with these numbers.
pub proof fn law_white(c: char)
    ensures
        is_white(c) <==> ({
            let n = c as int;
            ||| 9 <= n <= 13
            ||| n == 32 || n == 133 || n == 160 || n == 5760
            ||| 8192 <= n <= 8202
            ||| n == 8232 || n == 8233 || n == 8239 || n == 8287 || n == 12288
        }),
{
}

/// What is left of a text without the white space around it: a part of it, with nothing
/// but white space before and behind, that has none at its ends.
pub proof fn law_trimmed(s: Seq<char>)
    ensures
        exists|a: int, b: int|
            #![trigger s.subrange(a, b)]
            0 <= a <= b <= s.len() && trimmed(s) == s.subrange(a, b) && (forall|k: int|
                0 <= k < a || b <= k < s.len() ==> is_white(#[trigger] s[k])),
        trimmed(s).len() > 0 ==> !is_white(trimmed(s)[0]) && !is_white(trimmed(s).last()),
{
    lemma_trim_front(s);
    let m = trim_front(s);
    lemma_trim_back(m);
    let a = s.len() - m.len();
    let b = a + trim_back(m).len();
    assert(s.subrange(a, b) =~= trimmed(s));
    assert forall|k: int| 0 <= k < a || b <= k < s.len() implies is_white(#[trigger] s[k]) by {
        if k >= b {
            assert(m[k - a] == s[k]);
        }
    }
    if trimmed(s).len() > 0 {
        assert(trimmed(s)[0] == m[0]);
    }
}

proof fn lemma_trim_front(s: Seq<char>)
    ensures
        trim_front(s).len() <= s.len(),
        trim_front(s) == s.skip(s.len() - trim_front(s).len()),
        forall|k: int| 0 <= k < s.len() - trim_front(s).len() ==> is_white(#[trigger] s[k]),
        trim_front(s).len() > 0 ==> !is_white(trim_front(s)[0]),
    decreases s.len(),
{
    if s.len() > 0 && is_white(s[0]) {
        let rest = s.drop_first();
        lemma_trim_front(rest);
        assert(trim_front(s) =~= s.skip(s.len() - trim_front(s).len()));
        assert forall|k: int| 0 <= k < s.len() - trim_front(s).len() implies is_white(
            #[trigger] s[k],
        ) by {
            if k > 0 {
                assert(rest[k - 1] == s[k]);
            }
        }
    } else {
        assert(s.skip(0) =~= s);
    }
}

proof fn lemma_trim_back(s: Seq<char>)
    ensures
        trim_back(s).len() <= s.len(),
        trim_back(s) == s.take(trim_back(s).len() as int),
        forall|k: int| trim_back(s).len() <= k < s.len() ==> is_white(#[trigger] s[k]),
        trim_back(s).len() > 0 ==> !is_white(trim_back(s).last()),
    decreases s.len(),
{
    if s.len() > 0 && is_white(s.last()) {
        let rest = s.drop_last();
        lemma_trim_back(rest);
        assert(trim_back(s) =~= s.take(trim_back(s).len() as int));
        assert forall|k: int| trim_back(s).len() <= k < s.len() implies is_white(
            #[trigger] s[k],
        ) by {
            if k < s.len() - 1 {
                assert(rest[k] == s[k]);
            }
        }
    } else {
        assert(s.take(s.len() as int) =~= s);
    }
}

/// A separator between two texts separates their parts.
pub proof fn law_split<T>(a: Seq<T>, sep: T, b: Seq<T>)
    ensures
        split(a + seq![sep] + b, sep) == split(a, sep) + split(b, sep),
        !a.contains(sep) ==> split(a, sep) == seq![a],
    decreases b.len(),
{
    lemma_split_some(a, sep);
    lemma_split_some(b, sep);
    let pa = split(a, sep);
    if b.len() == 0 {
        let s = a + seq![sep] + b;
        assert(s.drop_last() =~= a);
        assert(split(b, sep) =~= seq![Seq::<T>::empty()]);
        assert(split(s, sep) =~= pa.push(seq![]));
        assert(split(s, sep) =~= pa + split(b, sep));
        if !a.contains(sep) {
            lemma_split_none(a, sep);
        }
    } else {
        let s = a + seq![sep] + b;
        let front = b.drop_last();
        law_split(a, sep, front);
        lemma_split_some(front, sep);
        let pf = split(front, sep);
        assert(s.drop_last() =~= a + seq![sep] + front);
        assert(s.last() == b.last());
        if b.last() == sep {
            assert((pa + pf).push(seq![]) =~= pa + pf.push(seq![]));
        } else {
            assert((pa + pf).last() == pf.last());
            assert((pa + pf).drop_last().push(pf.last().push(b.last())) =~= pa
                + pf.drop_last().push(pf.last().push(b.last())));
        }
    }
}

proof fn lemma_split_some<T>(s: Seq<T>, sep: T)
    ensures
        split(s, sep).len() > 0,
    decreases s.len(),
{
    if s.len() > 0 {
        lemma_split_some(s.drop_last(), sep);
    }
}

proof fn lemma_split_none<T>(s: Seq<T>, sep: T)
    requires
        !s.contains(sep),
    ensures
        split(s, sep) == seq![s],
    decreases s.len(),
{
    if s.len() > 0 {
        let front = s.drop_last();
        assert(!front.contains(sep)) by {
            assert forall|k: int| 0 <= k < front.len() implies front[k] != sep by {
                assert(s.contains(s[k]));
            }
        }
        assert(s.contains(s[s.len() - 1]));
        lemma_split_none(front, sep);
        assert(front.push(s.last()) =~= s);
        assert(split(s, sep) =~= seq![s]);
    } else {
        assert(s =~= Seq::<T>::empty());
        assert(split(s, sep) =~= seq![s]);
    }
}

/// What is stripped at the front or the back of a text is the character and nothing
/// else, and all of it.
pub proof fn law_strip(s: Seq<char>, c: char)
    ensures
        strip_front(s, c).len() <= s.len(),
        s.skip(s.len() - strip_front(s, c).len()) == strip_front(s, c),
        forall|k: int| 0 <= k < s.len() - strip_front(s, c).len() ==> #[trigger] s[k] == c,
        strip_front(s, c).len() > 0 ==> strip_front(s, c)[0] != c,
        strip_back(s, c).len() <= s.len(),
        s.take(strip_back(s, c).len() as int) == strip_back(s, c),
        forall|k: int| strip_back(s, c).len() <= k < s.len() ==> #[trigger] s[k] == c,
        strip_back(s, c).len() > 0 ==> strip_back(s, c).last() != c,
{
    lemma_strip_front(s, c);
    lemma_strip_back(s, c);
}

proof fn lemma_strip_front(s: Seq<char>, c: char)
    ensures
        strip_front(s, c).len() <= s.len(),
        s.skip(s.len() - strip_front(s, c).len()) == strip_front(s, c),
        forall|k: int| 0 <= k < s.len() - strip_front(s, c).len() ==> #[trigger] s[k] == c,
        strip_front(s, c).len() > 0 ==> strip_front(s, c)[0] != c,
    decreases s.len(),
{
    if s.len() > 0 && s[0] == c {
        let rest = s.drop_first();
        lemma_strip_front(rest, c);
        assert(s.skip(s.len() - strip_front(s, c).len()) =~= strip_front(s, c));
        assert forall|k: int| 0 <= k < s.len() - strip_front(s, c).len() implies #[trigger] s[k]
            == c by {
            if k > 0 {
                assert(rest[k - 1] == s[k]);
            }
        }
    } else {
        assert(s.skip(0) =~= s);
    }
}

proof fn lemma_strip_back(s: Seq<char>, c: char)
    ensures
        strip_back(s, c).len() <= s.len(),
        s.take(strip_back(s, c).len() as int) == strip_back(s, c),
        forall|k: int| strip_back(s, c).len() <= k < s.len() ==> #[trigger] s[k] == c,
        strip_back(s, c).len() > 0 ==> strip_back(s, c).last() != c,
    decreases s.len(),
{
    if s.len() > 0 && s.last() == c {
        let rest = s.drop_last();
        lemma_strip_back(rest, c);
        assert(s.take(strip_back(s, c).len() as int) =~= strip_back(s, c));
        assert forall|k: int| strip_back(s, c).len() <= k < s.len() implies #[trigger] s[k]
            == c by {
            if k < s.len() - 1 {
                assert(rest[k] == s[k]);
            }
        }
    } else {
        assert(s.take(s.len() as int) =~= s);
    }
}

/// A further digit makes a number ten times as large and adds what it stands for.
pub proof fn law_number(digits: Seq<char>, c: char)
    requires
        '0' <= c && c <= '9',
    ensures
        number(Seq::<char>::empty()) == 0,
        is_digit(c),
        number(digits.push(c)) == number(digits) * 10 + (c as int - 48),
{
    assert(digits.push(c).drop_last() =~= digits);
}

/// A number that is written in decimal reads as the number; what is written are digits,
/// without a zero at the front of other digits.
pub proof fn law_decimal(n: nat)
    ensures
        number(decimal(n)) == n,
        decimal(n).len() > 0,
        forall|k: int|
            0 <= k < decimal(n).len() ==> '0' <= #[trigger] decimal(n)[k] && decimal(n)[k] <= '9',
        decimal(n)[0] == '0' ==> n == 0,
        n < 10 ==> decimal(n).len() == 1,
    decreases n,
{
    lemma_digit_char((n % 10) as nat);
    if n < 10 {
        assert(decimal(n).drop_last() =~= Seq::<char>::empty());
        assert(decimal(n).last() == decimal(n)[0]);
        assert(number(Seq::<char>::empty()) == 0);
        assert(number(decimal(n)) == number(decimal(n).drop_last()) * 10 + digit_value(
            decimal(n)[0],
        ));
    } else {
        law_decimal(n / 10);
        let front = decimal(n / 10);
        assert(decimal(n).drop_last() =~= front);
        assert forall|k: int| 0 <= k < decimal(n).len() implies '0' <= #[trigger] decimal(n)[k]
            && decimal(n)[k] <= '9' by {
            if k < front.len() {
                assert(decimal(n)[k] == front[k]);
            }
        }
        assert(decimal(n)[0] == front[0]);
    }
}

proof fn lemma_digit_char(d: nat)
    requires
        d < 10,
    ensures
        crate::text::digit_char(d) as int == 48 + d,
{
}

/// The bytes of a text are read as the text.
pub proof fn law_bytes_text(t: Seq<char>)
    ensures
        bytes_text(encode_utf8(t)) == t,
{
    vstd::utf8::encode_utf8_valid_utf8(t);
    vstd::utf8::encode_utf8_decode_utf8(t);
}

/// A list of strings holds what its strings hold.
pub proof fn law_texts(v: Seq<String>, k: int)
    requires
        0 <= k < v.len(),
    ensures
        texts(v).len() == v.len(),
        texts(v)[k] == v[k]@,
{
}

} // verus!
