//! Which lines of a log are shown: those with a keyword, of a level and within
//! a range of time.

use vstd::prelude::*;
use vstd::utf8::encode_utf8;

use crate::fault::{invalid, Fault, FaultModel};
use crate::json::string_view;
use crate::regex::{found_in, Pat, SimpleRegex};
use crate::regex_laws::{is_plain, law_plain_pattern};
use crate::regex_parser::compiled;
use crate::text::{
    chars_of, contains_text, has_text, occurs_at, same_text, trim, trimmed, upper, upper_chars,
    upper_text,
};
use crate::time::{parse_time_num, stamp_from};

verus! {

/// Lines of more bytes than this are searched for the keyword itself, not for
/// the expression.
pub const LONG_LINE: usize = 100_000;

/// The expression of a regular expression, if there is one.
pub open spec fn pattern_of(re: Option<&SimpleRegex>) -> Option<Pat> {
    match re {
        Some(r) => Some(r.root@),
        None => None,
    }
}

/// The line has the keyword: the expression is found in it, or, without an
/// expression and in a long line, the keyword as it is written.
pub open spec fn keyword_fits(text: Seq<char>, keyword: Seq<char>, re: Option<Pat>) -> bool {
    match re {
        Some(p) => if encode_utf8(text).len() > LONG_LINE {
            contains_text(text, keyword)
        } else {
            found_in(p, text)
        },
        None => contains_text(text, keyword),
    }
}

/// The line names the level, in upper or lower case; every line is of level
/// `ALL`.
pub open spec fn level_fits(text: Seq<char>, level: Seq<char>) -> bool {
    level == "ALL"@ || contains_text(upper(text), level)
}

/// The first timestamp of the line lies in the range. A line without one lies
/// in no range, but passes where there is none.
pub open spec fn time_fits(text: Seq<char>, start: Option<u64>, end: Option<u64>) -> bool {
    if start is None && end is None {
        true
    } else {
        match stamp_from(encode_utf8(text), 0) {
            Some(n) => (start is Some ==> n >= start->0) && (end is Some ==> n <= end->0),
            None => false,
        }
    }
}

/// The line is shown.
pub open spec fn line_fits(
    text: Seq<char>,
    keyword: Seq<char>,
    level: Seq<char>,
    start: Option<u64>,
    end: Option<u64>,
    re: Option<Pat>,
) -> bool {
    keyword_fits(text, keyword, re) && level_fits(text, level) && time_fits(text, start, end)
}

/// Whether a line is shown.
pub fn match_line(
    text: &str,
    keyword: &str,
    level: &str,
    start: Option<u64>,
    end: Option<u64>,
    re: Option<&SimpleRegex>,
) -> (yes: bool)
    ensures
        yes == line_fits(text@, keyword@, level@, start, end, pattern_of(re)),
{
    let cs = chars_of(text);
    match re {
        Some(r) => {
            if text.as_bytes().len() > LONG_LINE {
                if !has_text(cs.as_slice(), chars_of(keyword).as_slice()) {
                    return false;
                }
            } else if !r.is_match(text) {
                return false;
            }
        },
        None => {
            if !has_text(cs.as_slice(), chars_of(keyword).as_slice()) {
                return false;
            }
        },
    }
    if !same_text(level, "ALL") && !has_text(
        upper_chars(cs.as_slice()).as_slice(),
        chars_of(level).as_slice(),
    ) {
        return false;
    }
    if start.is_none() && end.is_none() {
        return true;
    }
    match parse_time_num(text) {
        Some(n) => {
            (match start {
                Some(s) => n >= s,
                None => true,
            }) && (match end {
                Some(e) => n <= e,
                None => true,
            })
        },
        None => false,
    }
}

/// The conditions that a line must meet to be shown.
#[derive(Debug)]
pub struct Filter {
    pub keyword: String,
    pub level: String,
    pub start: Option<u64>,
    pub end: Option<u64>,
    pub re: Option<SimpleRegex>,
}

/// A filter as a value.
pub struct FilterModel {
    pub keyword: Seq<char>,
    pub level: Seq<char>,
    pub start: Option<u64>,
    pub end: Option<u64>,
    pub re: Option<Pat>,
}

impl View for Filter {
    type V = FilterModel;

    open spec fn view(&self) -> FilterModel {
        FilterModel {
            keyword: self.keyword@,
            level: self.level@,
            start: self.start,
            end: self.end,
            re: match self.re {
                Some(r) => Some(r.root@),
                None => None,
            },
        }
    }
}

impl FilterModel {
    /// The line is shown.
    pub open spec fn shows(self, text: Seq<char>) -> bool {
        line_fits(text, self.keyword, self.level, self.start, self.end, self.re)
    }
}

/// An optional text, or `fallback` where there is none.
pub open spec fn text_or(s: Option<Seq<char>>, fallback: Seq<char>) -> Seq<char> {
    match s {
        Some(s) => s,
        None => fallback,
    }
}

/// The bound that a text sets: none where it is blank or names no time.
pub open spec fn time_bound(text: Option<Seq<char>>) -> Option<u64> {
    match text {
        Some(t) => if trimmed(t).len() == 0 {
            None
        } else {
            match stamp_from(encode_utf8(t), 0) {
                Some(n) => Some(n as u64),
                None => None,
            }
        },
        None => None,
    }
}

/// What a request asks of the lines: a keyword, a level, a range of time, and
/// whether the keyword is an expression.
pub struct Wanted {
    pub keyword: Option<Seq<char>>,
    pub level: Option<Seq<char>>,
    pub start: Option<Seq<char>>,
    pub end: Option<Seq<char>>,
    pub regex: Option<bool>,
}

/// The filter for what a request asks of the lines, or why it is refused.
pub open spec fn filter_of(w: Wanted) -> Result<FilterModel, FaultModel> {
    let keyword = trimmed(text_or(w.keyword, ""@));
    let plain = FilterModel {
        keyword,
        level: upper(text_or(w.level, "ALL"@)),
        start: time_bound(w.start),
        end: time_bound(w.end),
        re: None,
    };
    if w.regex == Some(true) && keyword.len() > 0 {
        match compiled(keyword) {
            Ok(p) => Ok(FilterModel { re: Some(p), ..plain }),
            Err(m) => Err(invalid("正则表达式无效："@ + m)),
        }
    } else {
        Ok(plain)
    }
}

fn read_bound(text: &Option<String>) -> (n: Option<u64>)
    ensures
        n == time_bound(string_view(*text)),
{
    match text {
        Some(t) => if trim(t.as_str()).as_str().is_empty() {
            None
        } else {
            parse_time_num(t.as_str())
        },
        None => None,
    }
}

fn or_else(s: &Option<String>, fallback: &str) -> (out: String)
    ensures
        out@ == text_or(string_view(*s), fallback@),
{
    match s {
        Some(s) => s.clone(),
        None => fallback.to_owned(),
    }
}

impl Filter {
    /// The filter for what a request asks of the lines.
    pub fn build(
        keyword: &Option<String>,
        level: &Option<String>,
        start: &Option<String>,
        end: &Option<String>,
        regex: Option<bool>,
    ) -> (r: Result<Filter, Fault>)
        ensures
            match (
                r,
                filter_of(
                    (Wanted {
                        keyword: string_view(*keyword),
                        level: string_view(*level),
                        start: string_view(*start),
                        end: string_view(*end),
                        regex,
                    }),
                ),
            ) {
                (Ok(f), Ok(m)) => f@ == m,
                (Err(f), Err(m)) => f@ == m,
                _ => false,
            },
    {
        let keyword = trim(or_else(keyword, "").as_str());
        let level = upper_text(or_else(level, "ALL").as_str());
        let start = read_bound(start);
        let end = read_bound(end);
        let use_regex = match regex {
            Some(b) => b,
            None => false,
        };
        let re = if use_regex && !keyword.as_str().is_empty() {
            match SimpleRegex::compile(keyword.as_str()) {
                Ok(re) => Some(re),
                Err(e) => {
                    let mut message = "正则表达式无效：".to_owned();
                    message.append(e.as_str());
                    return Err(Fault::invalid(message.as_str()));
                },
            }
        } else {
            None
        };
        Ok(Filter { keyword, level, start, end, re })
    }

    /// Whether a line is shown.
    pub fn shows(&self, text: &str) -> (yes: bool)
        ensures
            yes == self@.shows(text@),
    {
        let re = match &self.re {
            Some(r) => Some(r),
            None => None,
        };
        match_line(
            text,
            self.keyword.as_str(),
            self.level.as_str(),
            self.start,
            self.end,
            re,
        )
    }
}

/// Without a keyword, a level and a range of time every line is shown.
pub proof fn law_open_filter(text: Seq<char>)
    ensures
        line_fits(text, ""@, "ALL"@, None, None, None),
{
    reveal_strlit("");
    assert(text.subrange(0, 0) =~= ""@);
    assert(occurs_at(text, ""@, 0));
}

/// A keyword without the special characters of expressions selects the same lines
/// as an expression and as a keyword.
pub proof fn law_plain_keyword(text: Seq<char>, keyword: Seq<char>)
    requires
        forall|k: int| 0 <= k < keyword.len() ==> is_plain(#[trigger] keyword[k]),
    ensures
        compiled(keyword) is Ok,
        keyword_fits(text, keyword, Some(compiled(keyword)->Ok_0)) == keyword_fits(
            text,
            keyword,
            None,
        ),
{
    law_plain_pattern(keyword, text);
}

/// A line without a timestamp is shown in no range of time; without a range the
/// time of a line does not matter.
pub proof fn law_lines_without_time(text: Seq<char>, start: Option<u64>, end: Option<u64>)
    requires
        stamp_from(encode_utf8(text), 0) is None,
    ensures
        time_fits(text, start, end) == (start is None && end is None),
{
}

} // verus!
