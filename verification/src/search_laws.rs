//! What the reply to a search and the chunks of a download hold.

use vstd::prelude::*;

use crate::download::{chunk_of, is_last_chunk, matching};
use crate::filter::{line_fits, Filter, FilterModel};
use crate::search::{
    answer, as_shown, at_most, context_lines, from, hits_in, hits_of, in_order, in_window, is_hit,
    law_context, law_hits, near, page_hits, page_of, reply_with, shown_of, Found, Hit, HitModel,
    LineModel, PageView, SearchReply, ShownLine,
};

verus! {

/// Every line that a search finds meets the keyword, the level, the range of time and the
/// expression of its filter, and every line of the file that does is found.
pub proof fn law_found_lines(lines: Seq<Option<Seq<char>>>, f: FilterModel, n: int)
    requires
        1 <= n <= lines.len(),
        lines[n - 1] is Some,
    ensures
        hits_in(lines, f).contains((HitModel { no: n, text: lines[n - 1]->0 })) <==> line_fits(
            lines[n - 1]->0,
            f.keyword,
            f.level,
            f.start,
            f.end,
            f.re,
        ),
{
    law_hits(lines, f);
}

/// A part of a list of at most `n` elements is its front.
pub proof fn law_at_most<T>(s: Seq<T>, n: int, k: int)
    requires
        0 <= n,
    ensures
        s.len() <= n ==> at_most(s, n) == s,
        s.len() > n ==> at_most(s, n).len() == n,
        0 <= k < n && k < s.len() ==> at_most(s, n)[k] == s[k],
{
}

/// The last element comes first in a list that is turned round.
pub proof fn law_in_order<T>(s: Seq<T>, k: int)
    ensures
        in_order(s, false) == s,
        in_order(s, true).len() == s.len(),
        0 <= k < s.len() ==> in_order(s, true)[k] == s[s.len() - 1 - k],
{
}

/// Page `page` shows the elements behind those of the pages before it, as many as a page
/// holds or as there are.
pub proof fn law_page<T>(s: Seq<T>, page: int, page_size: int, k: int)
    requires
        1 <= page,
        1 <= page_size,
    ensures
        ({
            let start = (page - 1) * page_size;
            let p = page_of(s, page, page_size);
            &&& start >= s.len() ==> p.len() == 0
            &&& start < s.len() < start + page_size ==> p.len() == s.len() - start
            &&& start + page_size <= s.len() ==> p.len() == page_size
            &&& 0 <= k < p.len() ==> p[k] == s[start + k]
        }),
{
    assert(0 <= (page - 1) * page_size) by (nonlinear_arith)
        requires
            1 <= page,
            1 <= page_size,
    ;
}

/// The reply says how many lines were found, up to twenty thousand, whether there were
/// more, and which page is shown.
pub proof fn law_reply(lines: Seq<Option<Seq<char>>>, f: FilterModel, view: PageView)
    ensures
        answer(lines, f, view).truncated <==> hits_in(lines, f).len() > 20000,
        hits_in(lines, f).len() <= 20000 ==> answer(lines, f, view).total == hits_in(
            lines,
            f,
        ).len(),
        hits_in(lines, f).len() > 20000 ==> answer(lines, f, view).total == 20000,
        answer(lines, f, view).page == view.page,
        answer(lines, f, view).page_size == view.page_size,
{
}

/// Without lines around the hits a page shows the hits, the last of them first where the
/// request asks for that, and each is marked as one.
pub proof fn law_reply_hits(
    lines: Seq<Option<Seq<char>>>,
    f: FilterModel,
    view: PageView,
    k: int,
)
    requires
        view.wf(),
        view.page_size >= 1,
        view.context == 0,
        0 <= k,
    ensures
        ({
            let total = answer(lines, f, view).total;
            let at = (view.page - 1) * view.page_size + k;
            let place = if view.newest_first {
                total - 1 - at
            } else {
                at
            };
            let shown = answer(lines, f, view).lines;
            &&& k < shown.len() <==> k < view.page_size && at < total
            &&& k < shown.len() ==> {
                &&& 0 <= place < total
                &&& shown[k].no == hits_in(lines, f)[place].no
                &&& shown[k].text == hits_in(lines, f)[place].text
                &&& shown[k].hit
            }
        }),
{
    let found = at_most(hits_in(lines, f), 20000);
    law_page(in_order(found, view.newest_first), view.page as int, view.page_size as int, k);
    assert(0 <= (view.page - 1) * view.page_size) by (nonlinear_arith)
        requires
            1 <= view.page,
            1 <= view.page_size,
    ;
    assert(in_order(found, view.newest_first).len() == found.len());
}

/// With lines around the hits a page shows a line of the file exactly where it can be read
/// and a hit of the page stands at most so many lines before or behind it. The hits of the
/// page are marked, and no other line is.
pub proof fn law_reply_context(
    lines: Seq<Option<Seq<char>>>,
    f: FilterModel,
    view: PageView,
    n: int,
    hit: bool,
)
    requires
        lines.len() <= u64::MAX,
        view.context >= 1,
        1 <= n <= lines.len(),
        lines[n - 1] is Some,
    ensures
        ({
            let page = page_hits(at_most(hits_in(lines, f), 20000), view);
            answer(lines, f, view).lines.contains(
                (LineModel { no: n, text: lines[n - 1]->0, hit }),
            ) <==> (exists|k: int|
                0 <= k < page.len() && (#[trigger] page[k]).no - view.context <= n && n
                    <= page[k].no + view.context) && (hit <==> exists|k: int|
                0 <= k < page.len() && (#[trigger] page[k]).no == n)
        }),
{
    let page = page_hits(at_most(hits_in(lines, f), 20000), view);
    let c = view.context as int;
    let l = LineModel { no: n, text: lines[n - 1]->0, hit };
    let near_lines = context_lines(lines, page, c);
    law_context(lines, page, c);
    law_window(page, c, n);
    if page.len() == 0 {
        assert(as_shown(page).len() == 0);
        assert(!in_window(page, c, n));
    } else {
        lemma_turned(near_lines, view.newest_first, l);
        if near_lines.contains(l) {
            let j = choose|j: int| 0 <= j < near_lines.len() && near_lines[j] == l;
            assert(near_lines[j].no == n);
        }
        if in_window(page, c, n) && hit == is_hit(page, n) {
            assert(near_lines.contains(l));
        }
    }
}

proof fn lemma_turned<T>(s: Seq<T>, backward: bool, x: T)
    ensures
        in_order(s, backward).contains(x) <==> s.contains(x),
{
    let r = in_order(s, backward);
    if s.contains(x) {
        let i = choose|i: int| 0 <= i < s.len() && s[i] == x;
        if backward {
            assert(r[s.len() - 1 - i] == x);
        }
    }
    if r.contains(x) {
        let i = choose|i: int| 0 <= i < r.len() && r[i] == x;
        if backward {
            assert(s[s.len() - 1 - i] == x);
        }
    }
}

/// The lines of a reply stand in the order of the file, or in the opposite order where the
/// last lines come first.
pub proof fn law_reply_order(
    lines: Seq<Option<Seq<char>>>,
    f: FilterModel,
    view: PageView,
    i: int,
    j: int,
)
    requires
        lines.len() <= u64::MAX,
        view.wf(),
        view.page_size >= 1,
        0 <= i < j < answer(lines, f, view).lines.len(),
    ensures
        !view.newest_first ==> answer(lines, f, view).lines[i].no < answer(
            lines,
            f,
            view,
        ).lines[j].no,
        view.newest_first ==> answer(lines, f, view).lines[i].no > answer(
            lines,
            f,
            view,
        ).lines[j].no,
{
    law_hits(lines, f);
    let found = at_most(hits_in(lines, f), 20000);
    let page = page_hits(found, view);
    if view.context == 0 || page.len() == 0 {
        law_page(in_order(found, view.newest_first), view.page as int, view.page_size as int, i);
        law_page(in_order(found, view.newest_first), view.page as int, view.page_size as int, j);
        assert(0 <= (view.page - 1) * view.page_size) by (nonlinear_arith)
            requires
                1 <= view.page,
                1 <= view.page_size,
        ;
        assert(in_order(found, view.newest_first).len() == found.len());
        let start = (view.page - 1) * view.page_size;
        if view.newest_first {
            assert(page[i] == found[found.len() - 1 - (start + i)]);
            assert(page[j] == found[found.len() - 1 - (start + j)]);
            assert(hits_in(lines, f)[found.len() - 1 - (start + j)].no < hits_in(
                lines,
                f,
            )[found.len() - 1 - (start + i)].no);
        } else {
            assert(page[i] == found[start + i]);
            assert(page[j] == found[start + j]);
            assert(hits_in(lines, f)[start + i].no < hits_in(lines, f)[start + j].no);
        }
    } else {
        law_context(lines, page, view.context as int);
    }
}

/// A line lies in the window of some hits where one of them stands at most `context` lines
/// before or behind it.
pub proof fn law_window(hits: Seq<HitModel>, context: int, n: int)
    requires
        1 <= n <= u64::MAX,
    ensures
        in_window(hits, context, n) <==> exists|k: int|
            0 <= k < hits.len() && (#[trigger] hits[k]).no - context <= n && n <= hits[k].no
                + context,
        is_hit(hits, n) <==> exists|k: int| 0 <= k < hits.len() && (#[trigger] hits[k]).no == n,
{
    if in_window(hits, context, n) {
        let k = choose|k: int| 0 <= k < hits.len() && near((#[trigger] hits[k]).no, context, n);
        assert(hits[k].no - context <= n && n <= hits[k].no + context);
    }
    if exists|k: int|
        0 <= k < hits.len() && (#[trigger] hits[k]).no - context <= n && n <= hits[k].no
            + context {
        let k = choose|k: int|
            0 <= k < hits.len() && (#[trigger] hits[k]).no - context <= n && n <= hits[k].no
                + context;
        assert(near(hits[k].no, context, n));
    }
}

/// A reply has the number of the lines that were found, the page that was asked for and
/// the lines that it was given.
pub proof fn law_reply_with(found: Found, view: PageView, lines: Seq<LineModel>)
    ensures
        reply_with(found, view, lines).total == found.hits@.len(),
        reply_with(found, view, lines).page == view.page,
        reply_with(found, view, lines).page_size == view.page_size,
        reply_with(found, view, lines).truncated == found.truncated,
        reply_with(found, view, lines).lines == lines,
{
}

/// Hits and lines of a reply have the numbers and the texts that they were given, in order.
pub proof fn law_line_parts(hits: Seq<Hit>, lines: Seq<ShownLine>, k: int)
    ensures
        hits_of(hits).len() == hits.len(),
        0 <= k < hits.len() ==> hits_of(hits)[k].no == hits[k].no && hits_of(hits)[k].text
            == hits[k].text@,
        shown_of(lines).len() == lines.len(),
        0 <= k < lines.len() ==> shown_of(lines)[k].no == lines[k].no && shown_of(lines)[k].text
            == lines[k].text@ && shown_of(lines)[k].hit == lines[k].hit,
{
}

/// A download has the texts of the lines that a search with the same filter finds.
pub proof fn law_matching(lines: Seq<Option<Seq<char>>>, f: FilterModel, k: int)
    ensures
        matching(lines, f).len() == hits_in(lines, f).len(),
        0 <= k < matching(lines, f).len() ==> matching(lines, f)[k] == hits_in(lines, f)[k].text,
        0 <= k < matching(lines, f).len() ==> line_fits(
            matching(lines, f)[k],
            f.keyword,
            f.level,
            f.start,
            f.end,
            f.re,
        ),
{
    law_hits(lines, f);
}

/// A chunk begins behind the first `offset` lines and has as many lines as were asked for,
/// or as there are.
pub proof fn law_chunk_lines(all: Seq<Seq<char>>, offset: int, length: int, k: int)
    requires
        0 <= offset,
        0 <= length,
    ensures
        offset >= all.len() ==> chunk_of(all, offset, length).len() == 0,
        offset < all.len() < offset + length ==> chunk_of(all, offset, length).len() == all.len()
            - offset,
        offset + length <= all.len() ==> chunk_of(all, offset, length).len() == length,
        0 <= k < chunk_of(all, offset, length).len() ==> chunk_of(all, offset, length)[k]
            == all[offset + k],
        from(all, offset).len() <= all.len(),
{
}

/// A chunk is the last one exactly where the one that would follow it is empty.
pub proof fn law_last_chunk(all: Seq<Seq<char>>, offset: int, length: int)
    requires
        0 <= offset,
        0 <= length,
    ensures
        is_last_chunk(all, offset, length) <==> chunk_of(
            all,
            offset + chunk_of(all, offset, length).len(),
            1,
        ).len() == 0,
{
}

/// The values of a reply and of a filter are what they hold.
pub proof fn law_reply_parts(r: SearchReply, f: Filter)
    ensures
        r@.total == r.total,
        r@.page == r.page,
        r@.page_size == r.page_size,
        r@.truncated == r.truncated,
        r@.lines == shown_of(r.lines@),
        f@.keyword == f.keyword@,
        f@.level == f.level@,
        f@.start == f.start,
        f@.end == f.end,
        f@.re is Some <==> f.re is Some,
        f.re is Some ==> f@.re->0 == f.re->0.root@,
{
}

} // verus!
