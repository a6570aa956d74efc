//! Which lines a filter shows, one condition at a time.

use vstd::prelude::*;
use vstd::utf8::encode_utf8;

use crate::filter::{
    filter_of, line_fits, pattern_of, text_or, time_bound, FilterModel, Wanted,
};
use crate::regex::{found_in, Pat, SimpleRegex};
use crate::regex_parser::compiled;
use crate::text::{contains_text, occurs_at, trimmed, upper};
use crate::time::stamp_from;
use crate::time_laws::law_stamps_fit;

verus! {

/// A line with the stamp `n` is shown in a range of time exactly where it is shown
/// without one and `n` lies in the range. What lies before the start or behind the end
/// is never shown.
pub proof fn law_range_of_time(
    text: Seq<char>,
    keyword: Seq<char>,
    level: Seq<char>,
    re: Option<Pat>,
    n: int,
    s: u64,
    e: u64,
)
    requires
        stamp_from(encode_utf8(text), 0) == Some(n),
    ensures
        line_fits(text, keyword, level, Some(s), Some(e), re) <==> line_fits(
            text,
            keyword,
            level,
            None,
            None,
            re,
        ) && s <= n && n <= e,
        line_fits(text, keyword, level, Some(s), None, re) <==> line_fits(
            text,
            keyword,
            level,
            None,
            None,
            re,
        ) && s <= n,
        line_fits(text, keyword, level, None, Some(e), re) <==> line_fits(
            text,
            keyword,
            level,
            None,
            None,
            re,
        ) && n <= e,
{
}

/// A line without a timestamp is shown in no range of time.
pub proof fn law_no_time(
    text: Seq<char>,
    keyword: Seq<char>,
    level: Seq<char>,
    re: Option<Pat>,
    start: Option<u64>,
    end: Option<u64>,
)
    requires
        stamp_from(encode_utf8(text), 0) is None,
        start is Some || end is Some,
    ensures
        !line_fits(text, keyword, level, start, end, re),
{
}

/// A line is shown at a level other than `ALL` exactly where it is shown at `ALL` and the
/// level stands in it in upper or lower case.
pub proof fn law_level(
    text: Seq<char>,
    keyword: Seq<char>,
    level: Seq<char>,
    start: Option<u64>,
    end: Option<u64>,
    re: Option<Pat>,
)
    requires
        level != "ALL"@,
    ensures
        line_fits(text, keyword, level, start, end, re) <==> line_fits(
            text,
            keyword,
            "ALL"@,
            start,
            end,
            re,
        ) && exists|at: int|
            0 <= at && at + level.len() <= text.len() && #[trigger] upper(text).subrange(
                at,
                at + level.len(),
            ) == level,
{
    assert(upper(text).len() == text.len());
    if contains_text(upper(text), level) {
        let at = choose|at: int| occurs_at(upper(text), level, at);
        assert(upper(text).subrange(at, at + level.len()) == level);
    }
    if exists|at: int|
        0 <= at && at + level.len() <= text.len() && #[trigger] upper(text).subrange(
            at,
            at + level.len(),
        ) == level {
        let at = choose|at: int|
            0 <= at && at + level.len() <= text.len() && #[trigger] upper(text).subrange(
                at,
                at + level.len(),
            ) == level;
        assert(occurs_at(upper(text), level, at));
    }
}

/// At level `ALL` and without a range of time the keyword decides: it stands in the line,
/// or, as an expression, is found in it. A line of more than a hundred thousand bytes
/// must hold the expression as it is written.
pub proof fn law_keyword(text: Seq<char>, keyword: Seq<char>, p: Pat)
    ensures
        line_fits(text, keyword, "ALL"@, None, None, None) <==> contains_text(text, keyword),
        encode_utf8(text).len() <= 100000 ==> (line_fits(
            text,
            keyword,
            "ALL"@,
            None,
            None,
            Some(p),
        ) <==> found_in(p, text)),
        encode_utf8(text).len() > 100000 ==> (line_fits(
            text,
            keyword,
            "ALL"@,
            None,
            None,
            Some(p),
        ) <==> contains_text(text, keyword)),
{
}

/// A filter shows the lines that meet its own keyword, level, range of time and
/// expression.
pub proof fn law_filter_parts(f: FilterModel, text: Seq<char>)
    ensures
        f.shows(text) <==> line_fits(text, f.keyword, f.level, f.start, f.end, f.re),
{
}

/// A text that names a time sets that time as a bound. A text that names none, and no
/// text, set none.
pub proof fn law_bound(t: Seq<char>)
    ensures
        time_bound(None) is None,
        stamp_from(encode_utf8(t), 0) is None ==> time_bound(Some(t)) is None,
        trimmed(t).len() > 0 && stamp_from(encode_utf8(t), 0) is Some ==> time_bound(Some(t))
            is Some && time_bound(Some(t))->0 == stamp_from(encode_utf8(t), 0)->0,
        trimmed(t).len() == 0 ==> time_bound(Some(t)) is None,
{
    law_stamps_fit(encode_utf8(t), 0);
}

/// Without an expression a filter shows the lines in which the keyword of the request
/// stands, without the white space around it, that name its level and lie in its range of
/// time. What the request leaves out asks nothing of a line.
pub proof fn law_requested_lines(w: Wanted, text: Seq<char>)
    requires
        w.regex != Some(true),
    ensures
        filter_of(w) is Ok,
        filter_of(w)->Ok_0.shows(text) <==> {
            &&& w.keyword is Some ==> contains_text(text, trimmed(w.keyword->0))
            &&& w.level is Some && upper(w.level->0) != "ALL"@ ==> contains_text(
                upper(text),
                upper(w.level->0),
            )
            &&& time_bound(w.start) is Some ==> stamp_from(encode_utf8(text), 0) is Some
                && time_bound(w.start)->0 <= stamp_from(encode_utf8(text), 0)->0
            &&& time_bound(w.end) is Some ==> stamp_from(encode_utf8(text), 0) is Some
                && stamp_from(encode_utf8(text), 0)->0 <= time_bound(w.end)->0
        },
{
    lemma_all_in_upper_case();
    lemma_nothing_asked(text);
}

/// With an expression a filter shows the lines in which the expression of the request is
/// found, with the same level and range of time. An expression that cannot be read is
/// refused, and a blank one is none.
pub proof fn law_requested_expression(w: Wanted, keyword: Seq<char>, text: Seq<char>)
    requires
        w.regex == Some(true),
        w.keyword == Some(keyword),
    ensures
        trimmed(keyword).len() > 0 && compiled(trimmed(keyword)) is Err ==> {
            &&& filter_of(w) is Err
            &&& filter_of(w)->Err_0.code == -32602
            &&& filter_of(w)->Err_0.message == "正则表达式无效："@ + compiled(
                trimmed(keyword),
            )->Err_0
        },
        trimmed(keyword).len() > 0 && compiled(trimmed(keyword)) is Ok ==> {
            let plain = filter_of((Wanted { keyword: None, regex: None, ..w }));
            &&& filter_of(w) is Ok
            &&& plain is Ok
            &&& encode_utf8(text).len() <= 100000 ==> (filter_of(w)->Ok_0.shows(text) <==> found_in(
                compiled(trimmed(keyword))->Ok_0,
                text,
            ) && plain->Ok_0.shows(text))
            &&& encode_utf8(text).len() > 100000 ==> (filter_of(w)->Ok_0.shows(text)
                <==> contains_text(text, trimmed(keyword)) && plain->Ok_0.shows(text))
        },
        trimmed(keyword).len() == 0 ==> filter_of(w) == filter_of((Wanted { regex: None, ..w })),
{
    lemma_nothing_asked(text);
}

/// A request without a keyword asks for the same lines whether or not it asks for an
/// expression.
pub proof fn law_no_keyword(w: Wanted)
    requires
        w.keyword is None,
    ensures
        filter_of(w) is Ok,
        filter_of(w) == filter_of((Wanted { regex: None, ..w })),
{
    reveal_strlit("");
    reveal_with_fuel(crate::text::trim_front, 2);
    reveal_with_fuel(crate::text::trim_back, 2);
}

/// A line is held against the expression that a regular expression has, if there is one; a
/// text that is left out is replaced.
pub proof fn law_optional_parts(re: SimpleRegex, s: Seq<char>, fallback: Seq<char>)
    ensures
        pattern_of(Some(&re)) == Some(re.root@),
        pattern_of(None) is None,
        text_or(Some(s), fallback) == s,
        text_or(None, fallback) == fallback,
{
}

proof fn lemma_all_in_upper_case()
    ensures
        upper("ALL"@) == "ALL"@,
{
    reveal_strlit("ALL");
    assert(upper("ALL"@) =~= "ALL"@);
}

proof fn lemma_nothing_asked(text: Seq<char>)
    ensures
        trimmed(""@).len() == 0,
        contains_text(text, trimmed(""@)),
{
    reveal_strlit("");
    reveal_with_fuel(crate::text::trim_front, 2);
    reveal_with_fuel(crate::text::trim_back, 2);
    assert(text.subrange(0, 0) =~= trimmed(""@));
    assert(occurs_at(text, trimmed(""@), 0));
}

} // verus!
