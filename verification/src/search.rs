//! The search in a log: the lines that a filter shows, page by page, with the
//! lines around them.

use std::collections::HashSet;

use vstd::prelude::*;

use crate::filter::{Filter, FilterModel};
use crate::json::string_view;

verus! {

/// The most lines that a search gives; what goes beyond is cut off.
pub const MAX_RETURN_LINES: usize = 20000;

/// A line that the filter shows, with its number from one on.
#[derive(Debug)]
pub struct Hit {
    pub no: u64,
    pub text: String,
}

/// A hit as a value.
pub struct HitModel {
    pub no: int,
    pub text: Seq<char>,
}

impl View for Hit {
    type V = HitModel;

    open spec fn view(&self) -> HitModel {
        HitModel { no: self.no as int, text: self.text@ }
    }
}

/// The views of a list of hits.
pub open spec fn hits_of(hits: Seq<Hit>) -> Seq<HitModel> {
    hits.map_values(|h: Hit| h@)
}

/// The lines of a file that the filter shows, with their numbers. A line that
/// cannot be read is skipped but counted.
pub open spec fn hits_in(lines: Seq<Option<Seq<char>>>, f: FilterModel) -> Seq<HitModel>
    decreases lines.len(),
{
    if lines.len() == 0 {
        seq![]
    } else {
        let front = hits_in(lines.drop_last(), f);
        match lines.last() {
            Some(text) => if f.shows(text) {
                front.push(HitModel { no: lines.len() as int, text })
            } else {
                front
            },
            None => front,
        }
    }
}

/// The first `n` elements of `s`, or all where there are fewer.
pub open spec fn at_most<T>(s: Seq<T>, n: int) -> Seq<T> {
    if s.len() <= n {
        s
    } else {
        s.take(n)
    }
}

/// A search that is handed the lines of a file one by one.
pub struct SearchScan {
    filter: Filter,
    no: u64,
    hits: Vec<Hit>,
    cut_off: bool,
    seen: Ghost<Seq<Option<Seq<char>>>>,
}

/// What a search has found, and whether further lines were cut off.
#[derive(Debug)]
pub struct Found {
    pub hits: Vec<Hit>,
    pub truncated: bool,
}

impl SearchScan {
    /// The lines that the search was handed.
    pub closed spec fn seen(&self) -> Seq<Option<Seq<char>>> {
        self.seen@
    }

    /// The filter of the search.
    pub closed spec fn filter(&self) -> FilterModel {
        self.filter@
    }

    /// What was found are the hits in the lines that were seen.
    pub closed spec fn wf(&self) -> bool {
        &&& hits_of(self.hits@) == at_most(
            hits_in(self.seen@, self.filter@),
            MAX_RETURN_LINES as int,
        )
        &&& self.cut_off == (hits_in(self.seen@, self.filter@).len() > MAX_RETURN_LINES)
        &&& !self.cut_off ==> self.no == self.seen@.len()
    }

    /// A search that has seen no line.
    pub fn new(filter: Filter) -> (s: SearchScan)
        ensures
            s.wf(),
            s.filter() == filter@,
            s.seen() == Seq::<Option<Seq<char>>>::empty(),
    {
        let s = SearchScan {
            filter,
            no: 0,
            hits: Vec::new(),
            cut_off: false,
            seen: Ghost(Seq::empty()),
        };
        assert(hits_of(s.hits@) =~= Seq::<HitModel>::empty());
        s
    }

    /// Takes the next line of the file, nothing where it cannot be read. The
    /// result says whether the search goes on: it ends with the first hit that is cut
    /// off.
    pub fn feed(&mut self, line: Option<String>) -> (more: bool)
        requires
            old(self).wf(),
            old(self).seen().len() < u64::MAX,
        ensures
            final(self).wf(),
            final(self).filter() == old(self).filter(),
            final(self).seen() == old(self).seen().push(string_view(line)),
            more == (hits_in(final(self).seen(), final(self).filter()).len() <= MAX_RETURN_LINES),
    {
        let ghost lines = self.seen@.push(string_view(line));
        let ghost before = self.hits@;
        assert(lines.drop_last() =~= self.seen@);
        let ghost front = hits_in(self.seen@, self.filter@);
        assert(hits_of(before).len() == before.len());
        self.seen = Ghost(lines);
        if self.cut_off {
            assert(at_most(hits_in(lines, self.filter@), MAX_RETURN_LINES as int) =~= at_most(
                front,
                MAX_RETURN_LINES as int,
            ));
            return false;
        }
        self.no = self.no + 1;
        match line {
            Some(text) => {
                if self.filter.shows(text.as_str()) {
                    if self.hits.len() < MAX_RETURN_LINES {
                        let h = Hit { no: self.no, text };
                        assert(hits_of(before.push(h)) =~= hits_of(before).push(h@));
                        self.hits.push(h);
                    } else {
                        assert(at_most(hits_in(lines, self.filter@), MAX_RETURN_LINES as int)
                            =~= at_most(front, MAX_RETURN_LINES as int));
                        self.cut_off = true;
                    }
                }
            },
            None => {},
        }
        !self.cut_off
    }

    /// What the search has found.
    pub fn finish(self) -> (found: Found)
        requires
            self.wf(),
        ensures
            hits_of(found.hits@) == at_most(
                hits_in(self.seen(), self.filter()),
                MAX_RETURN_LINES as int,
            ),
            found.truncated == (hits_in(self.seen(), self.filter()).len() > MAX_RETURN_LINES),
    {
        Found { hits: self.hits, truncated: self.cut_off }
    }
}

/// Which page of the hits is shown, and how.
#[derive(Debug)]
pub struct PageView {
    pub page: u64,
    pub page_size: u64,
    pub newest_first: bool,
    pub context: u64,
}

impl PageView {
    /// Pages are counted from one on.
    pub open spec fn wf(&self) -> bool {
        self.page >= 1
    }
}

/// `s` as it is, or from its end to its front.
pub open spec fn in_order<T>(s: Seq<T>, backward: bool) -> Seq<T> {
    if backward {
        s.reverse()
    } else {
        s
    }
}

/// The elements of `s` from `n` on.
pub open spec fn from<T>(s: Seq<T>, n: int) -> Seq<T> {
    if n >= s.len() {
        seq![]
    } else {
        s.skip(n)
    }
}

/// The place at which a page begins.
pub open spec fn page_start(page: int, page_size: int) -> int {
    (page - 1) * page_size
}

/// The elements on a page.
pub open spec fn page_of<T>(s: Seq<T>, page: int, page_size: int) -> Seq<T> {
    at_most(from(s, page_start(page, page_size)), page_size)
}

impl Clone for Hit {
    /// A hit with the same number and text.
    fn clone(&self) -> (h: Hit)
        ensures
            h@ == self@,
    {
        Hit { no: self.no, text: self.text.clone() }
    }
}

/// The hits on a page.
pub fn take_page(hits: &Vec<Hit>, view: &PageView) -> (out: Vec<Hit>)
    requires
        view.wf(),
    ensures
        hits_of(out@) == page_of(
            in_order(hits_of(hits@), view.newest_first),
            view.page as int,
            view.page_size as int,
        ),
{
    let ghost all = in_order(hits_of(hits@), view.newest_first);
    let ghost wanted = page_of(all, view.page as int, view.page_size as int);
    let mut out: Vec<Hit> = Vec::new();
    let start: u64 = match (view.page - 1).checked_mul(view.page_size) {
        Some(start) => start,
        None => u64::MAX,
    };
    if start >= hits.len() as u64 {
        assert(hits_of(out@) =~= wanted);
        return out;
    }
    assert(start == page_start(view.page as int, view.page_size as int));
    let first: usize = start as usize;
    let mut k: usize = first;
    assert(hits_of(out@) =~= wanted.take(0));
    while k < hits.len() && ((k - first) as u64) < view.page_size
        invariant
            start == first,
            first <= k <= hits.len(),
            first < hits.len(),
            k - first <= view.page_size,
            start == page_start(view.page as int, view.page_size as int),
            all == in_order(hits_of(hits@), view.newest_first),
            wanted == page_of(all, view.page as int, view.page_size as int),
            hits_of(out@) == wanted.take(k - first),
        decreases hits.len() - k,
    {
        let at: usize = if view.newest_first {
            hits.len() - 1 - k
        } else {
            k
        };
        let h = hits[at].clone();
        let ghost before = out@;
        assert(hits_of(hits@)[at as int] == h@);
        assert(all[k as int] == h@);
        assert(wanted[k - first] == all[k as int]);
        out.push(h);
        assert(hits_of(before.push(h)) =~= hits_of(before).push(h@));
        assert(wanted.take(k + 1 - first) =~= wanted.take(k - first).push(h@));
        k += 1;
    }
    assert(wanted.take(k - first) =~= wanted);
    out
}

/// A line of a reply: a hit, or a line near one.
#[derive(Debug)]
pub struct ShownLine {
    pub no: u64,
    pub text: String,
    pub hit: bool,
}

/// A line of a reply as a value.
pub struct LineModel {
    pub no: int,
    pub text: Seq<char>,
    pub hit: bool,
}

impl View for ShownLine {
    type V = LineModel;

    open spec fn view(&self) -> LineModel {
        LineModel { no: self.no as int, text: self.text@, hit: self.hit }
    }
}

/// The views of the lines of a reply.
pub open spec fn shown_of(lines: Seq<ShownLine>) -> Seq<LineModel> {
    lines.map_values(|l: ShownLine| l@)
}

/// Hits as the lines of a reply.
pub open spec fn as_shown(hits: Seq<HitModel>) -> Seq<LineModel> {
    hits.map_values(|h: HitModel| LineModel { no: h.no, text: h.text, hit: true })
}

/// Hits as the lines of a reply.
pub fn show_hits(hits: &Vec<Hit>) -> (out: Vec<ShownLine>)
    ensures
        shown_of(out@) == as_shown(hits_of(hits@)),
{
    let mut out: Vec<ShownLine> = Vec::new();
    let mut k: usize = 0;
    assert(shown_of(out@) =~= as_shown(hits_of(hits@)).take(0));
    while k < hits.len()
        invariant
            k <= hits.len(),
            shown_of(out@) == as_shown(hits_of(hits@)).take(k as int),
        decreases hits.len() - k,
    {
        let l = ShownLine { no: hits[k].no, text: hits[k].text.clone(), hit: true };
        let ghost before = out@;
        out.push(l);
        assert(shown_of(before.push(l)) =~= shown_of(before).push(l@));
        assert(as_shown(hits_of(hits@)).take(k + 1) =~= as_shown(hits_of(hits@)).take(
            k as int,
        ).push(l@));
        k += 1;
    }
    assert(as_shown(hits_of(hits@)).take(k as int) =~= as_shown(hits_of(hits@)));
    out
}

/// The line `n` lies at most `context` lines before or behind the line `no`.
pub open spec fn near(no: int, context: int, n: int) -> bool {
    no - context <= n <= no + context
}

/// The line `n` is a hit or near one.
pub open spec fn in_window(hits: Seq<HitModel>, context: int, n: int) -> bool {
    1 <= n <= u64::MAX && exists|k: int|
        0 <= k < hits.len() && near((#[trigger] hits[k]).no, context, n)
}

/// The line `n` is a hit.
pub open spec fn is_hit(hits: Seq<HitModel>, n: int) -> bool {
    exists|k: int| 0 <= k < hits.len() && (#[trigger] hits[k]).no == n
}

/// The lines of a file that are hits or near one. A line that cannot be read is
/// left out but counted.
pub open spec fn context_lines(
    lines: Seq<Option<Seq<char>>>,
    hits: Seq<HitModel>,
    context: int,
) -> Seq<LineModel>
    decreases lines.len(),
{
    if lines.len() == 0 {
        seq![]
    } else {
        let front = context_lines(lines.drop_last(), hits, context);
        let no = lines.len() as int;
        match lines.last() {
            Some(text) => if in_window(hits, context, no) {
                front.push(LineModel { no, text, hit: is_hit(hits, no) })
            } else {
                front
            },
            None => front,
        }
    }
}

/// The second pass of a search: it is handed the lines of the file once more and
/// keeps those near the hits.
pub struct ContextScan {
    no: u64,
    window: HashSet<u64>,
    marks: HashSet<u64>,
    out: Vec<ShownLine>,
    hits: Ghost<Seq<HitModel>>,
    context: Ghost<int>,
    seen: Ghost<Seq<Option<Seq<char>>>>,
}

impl ContextScan {
    /// The lines that the scan was handed.
    pub closed spec fn seen(&self) -> Seq<Option<Seq<char>>> {
        self.seen@
    }

    /// The hits whose surroundings are kept.
    pub closed spec fn hits(&self) -> Seq<HitModel> {
        self.hits@
    }

    /// How many lines are kept before and behind a hit.
    pub closed spec fn context(&self) -> int {
        self.context@
    }

    /// What was kept are the lines near the hits among those that were seen.
    pub closed spec fn wf(&self) -> bool {
        &&& self.no == self.seen@.len()
        &&& shown_of(self.out@) == context_lines(self.seen@, self.hits@, self.context@)
        &&& forall|n: u64| #[trigger]
            self.window@.contains(n) <==> n > self.no && in_window(
                self.hits@,
                self.context@,
                n as int,
            )
        &&& forall|n: u64| #[trigger] self.marks@.contains(n) <==> is_hit(self.hits@, n as int)
    }

    /// A scan that keeps the lines up to `context` lines before and behind `hits`.
    pub fn new(hits: &Vec<Hit>, context: u64) -> (s: ContextScan)
        ensures
            s.wf(),
            s.hits() == hits_of(hits@),
            s.context() == context,
            s.seen() == Seq::<Option<Seq<char>>>::empty(),
    {
        broadcast use vstd::std_specs::hash::group_hash_axioms;

        let ghost all = hits_of(hits@);
        let mut window: HashSet<u64> = HashSet::new();
        let mut marks: HashSet<u64> = HashSet::new();
        let mut k: usize = 0;
        while k < hits.len()
            invariant
                k <= hits.len(),
                all == hits_of(hits@),
                forall|n: u64| #[trigger]
                    window@.contains(n) <==> in_window(all.take(k as int), context as int, n as int),
                forall|n: u64| #[trigger]
                    marks@.contains(n) <==> is_hit(all.take(k as int), n as int),
            decreases hits.len() - k,
        {
            let no: u64 = hits[k].no;
            let ghost windowed = window@;
            let ghost marked = marks@;
            marks.insert(no);
            let below = no.saturating_sub(context);
            let lo: u64 = if below < 1 {
                1
            } else {
                below
            };
            let hi: u64 = no.saturating_add(context);
            insert_span(&mut window, lo, hi);
            proof {
                lemma_window_grows(all, context as int, k as int);
            }
            k += 1;
        }
        assert(all.take(k as int) =~= all);
        let s = ContextScan {
            no: 0,
            window,
            marks,
            out: Vec::new(),
            hits: Ghost(all),
            context: Ghost(context as int),
            seen: Ghost(Seq::empty()),
        };
        assert(shown_of(s.out@) =~= Seq::<LineModel>::empty());
        s
    }

    /// Takes the next line of the file, nothing where it cannot be read. The
    /// result says whether the scan goes on: it ends with the last line near a hit.
    pub fn feed(&mut self, line: Option<String>) -> (more: bool)
        requires
            old(self).wf(),
            old(self).seen().len() < u64::MAX,
        ensures
            final(self).wf(),
            final(self).hits() == old(self).hits(),
            final(self).context() == old(self).context(),
            final(self).seen() == old(self).seen().push(string_view(line)),
            more == !ends_window(
                final(self).hits(),
                final(self).context(),
                final(self).seen().len() as int,
            ),
    {
        broadcast use vstd::std_specs::hash::group_hash_axioms;

        let ghost lines = self.seen@.push(string_view(line));
        assert(lines.drop_last() =~= self.seen@);
        let ghost before = self.window@;
        let ghost kept = self.out@;
        self.no = self.no + 1;
        self.seen = Ghost(lines);
        let no: u64 = self.no;
        if !self.window.remove(&no) {
            assert(self.window@ =~= before);
            return true;
        }
        match line {
            Some(text) => {
                let hit = self.marks.contains(&no);
                let l = ShownLine { no, text, hit };
                assert(shown_of(kept.push(l)) =~= shown_of(kept).push(l@));
                self.out.push(l);
            },
            None => {},
        }
        proof {
            let rest = self.window@;
            if !rest.is_empty() {
                let n = rest.choose();
                assert(rest.contains(n));
            } else {
                assert forall|n: int| n > no implies !in_window(
                    self.hits@,
                    self.context@,
                    n,
                ) by {
                    if in_window(self.hits@, self.context@, n) {
                        assert(!rest.contains(n as u64));
                    }
                }
            }
        }
        !self.window.is_empty()
    }

    /// The lines that were kept.
    pub fn finish(self, newest_first: bool) -> (out: Vec<ShownLine>)
        requires
            self.wf(),
        ensures
            shown_of(out@) == in_order(
                context_lines(self.seen(), self.hits(), self.context()),
                newest_first,
            ),
    {
        let mut kept = self.out;
        if !newest_first {
            return kept;
        }
        let ghost all = shown_of(kept@);
        let mut out: Vec<ShownLine> = Vec::new();
        assert(shown_of(out@) =~= all.reverse().take(0));
        while kept.len() > 0
            invariant
                kept@.len() + out@.len() == all.len(),
                shown_of(kept@) == all.take(kept@.len() as int),
                shown_of(out@) == all.reverse().take(out@.len() as int),
            decreases kept.len(),
        {
            let ghost left = kept@;
            let ghost done = out@;
            match kept.pop() {
                Some(l) => {
                    assert(shown_of(left)[left.len() - 1] == l@);
                    assert(all.reverse()[done.len() as int] == l@);
                    assert(shown_of(left.drop_last()) =~= all.take(left.len() - 1));
                    assert(shown_of(done.push(l)) =~= shown_of(done).push(l@));
                    assert(all.reverse().take(done.len() as int + 1) =~= all.reverse().take(
                        done.len() as int,
                    ).push(l@));
                    out.push(l);
                },
                None => {},
            }
        }
        assert(all.reverse().take(out@.len() as int) =~= all.reverse());
        out
    }
}

/// The line `n` is the last one that is a hit or near one.
pub open spec fn ends_window(hits: Seq<HitModel>, context: int, n: int) -> bool {
    in_window(hits, context, n) && forall|m: int| m > n ==> !#[trigger] in_window(hits, context, m)
}

/// The reply to a search: how many lines were found, which page of them is shown,
/// whether further lines were cut off, and the lines of the page.
#[derive(Debug)]
pub struct SearchReply {
    pub total: usize,
    pub page: u64,
    pub page_size: u64,
    pub truncated: bool,
    pub lines: Vec<ShownLine>,
}

/// A reply as a value.
pub struct ReplyModel {
    pub total: int,
    pub page: int,
    pub page_size: int,
    pub truncated: bool,
    pub lines: Seq<LineModel>,
}

impl View for SearchReply {
    type V = ReplyModel;

    open spec fn view(&self) -> ReplyModel {
        ReplyModel {
            total: self.total as int,
            page: self.page as int,
            page_size: self.page_size as int,
            truncated: self.truncated,
            lines: shown_of(self.lines@),
        }
    }
}

/// The hits on the page that is shown.
pub open spec fn page_hits(hits: Seq<HitModel>, view: PageView) -> Seq<HitModel> {
    page_of(in_order(hits, view.newest_first), view.page as int, view.page_size as int)
}

/// The page shows nothing but hits, so that the file need not be read again.
pub open spec fn needs_no_context(hits: Seq<HitModel>, view: PageView) -> bool {
    view.context == 0 || page_hits(hits, view).len() == 0
}

/// The reply with the given lines.
pub open spec fn reply_with(found: Found, view: PageView, lines: Seq<LineModel>) -> ReplyModel {
    ReplyModel {
        total: found.hits@.len() as int,
        page: view.page as int,
        page_size: view.page_size as int,
        truncated: found.truncated,
        lines,
    }
}

/// A search whose hits are known, while the lines near them are gathered.
pub struct Expansion {
    pub total: usize,
    pub truncated: bool,
    pub view: PageView,
    pub scan: ContextScan,
}

/// What follows when the hits of a search are known.
pub enum SearchStep {
    /// The reply is complete.
    Reply(SearchReply),
    /// The file is read once more.
    Expand(Expansion),
}

/// What follows when the hits of a search are known.
pub fn next_step(found: Found, view: PageView) -> (step: SearchStep)
    requires
        view.wf(),
    ensures
        match step {
            SearchStep::Reply(r) => needs_no_context(hits_of(found.hits@), view) && r@
                == reply_with(found, view, as_shown(page_hits(hits_of(found.hits@), view))),
            SearchStep::Expand(e) => {
                &&& !needs_no_context(hits_of(found.hits@), view)
                &&& e.total == found.hits.len()
                &&& e.truncated == found.truncated
                &&& e.view == view
                &&& e.scan.wf()
                &&& e.scan.hits() == page_hits(hits_of(found.hits@), view)
                &&& e.scan.context() == view.context
                &&& e.scan.seen() == Seq::<Option<Seq<char>>>::empty()
            },
        },
{
    let total = found.hits.len();
    let page = take_page(&found.hits, &view);
    assert(hits_of(page@).len() == page@.len());
    if view.context == 0 || page.len() == 0 {
        let lines = show_hits(&page);
        return SearchStep::Reply(
            SearchReply {
                total,
                page: view.page,
                page_size: view.page_size,
                truncated: found.truncated,
                lines,
            },
        );
    }
    let scan = ContextScan::new(&page, view.context);
    SearchStep::Expand(Expansion { total, truncated: found.truncated, view, scan })
}

impl Expansion {
    /// The reply with the lines that were gathered.
    pub fn finish(self) -> (r: SearchReply)
        requires
            self.scan.wf(),
        ensures
            r@ == (ReplyModel {
                total: self.total as int,
                page: self.view.page as int,
                page_size: self.view.page_size as int,
                truncated: self.truncated,
                lines: in_order(
                    context_lines(self.scan.seen(), self.scan.hits(), self.scan.context()),
                    self.view.newest_first,
                ),
            }),
    {
        let lines = self.scan.finish(self.view.newest_first);
        SearchReply {
            total: self.total,
            page: self.view.page,
            page_size: self.view.page_size,
            truncated: self.truncated,
            lines,
        }
    }
}

/// The lines that a search finds are lines of the file that the filter shows, in
/// the order of the file, and every such line is found.
pub proof fn law_hits(lines: Seq<Option<Seq<char>>>, f: FilterModel)
    ensures
        forall|k: int|
            0 <= k < hits_in(lines, f).len() ==> {
                let h = #[trigger] hits_in(lines, f)[k];
                1 <= h.no <= lines.len() && lines[h.no - 1] == Some(h.text) && f.shows(h.text)
            },
        forall|j: int, k: int|
            0 <= j < k < hits_in(lines, f).len() ==> (#[trigger] hits_in(lines, f)[j]).no < (
            #[trigger] hits_in(lines, f)[k]).no,
        forall|n: int|
            1 <= n <= lines.len() && (#[trigger] lines[n - 1]) is Some && f.shows(lines[n - 1]->0)
                ==> hits_in(lines, f).contains(HitModel { no: n, text: lines[n - 1]->0 }),
    decreases lines.len(),
{
    if lines.len() > 0 {
        let front = lines.drop_last();
        law_hits(front, f);
        let a = hits_in(front, f);
        let b = hits_in(lines, f);
        assert(forall|k: int| 0 <= k < a.len() ==> b[k] == a[k]);
        assert forall|n: int|
            1 <= n <= lines.len() && (#[trigger] lines[n - 1]) is Some && f.shows(
                lines[n - 1]->0,
            ) implies b.contains(HitModel { no: n, text: lines[n - 1]->0 }) by {
            let h = HitModel { no: n, text: lines[n - 1]->0 };
            if n < lines.len() {
                assert(front[n - 1] == lines[n - 1]);
                let k = choose|k: int| 0 <= k < a.len() && a[k] == h;
                assert(b[k] == h);
            } else {
                assert(b[a.len() as int] == h);
            }
        }
    }
}

/// Once a line is cut off the rest of the file does not matter, so that the search
/// may end there.
pub proof fn law_search_ends(lines: Seq<Option<Seq<char>>>, f: FilterModel, n: int)
    requires
        0 <= n <= lines.len(),
        hits_in(lines.take(n), f).len() > MAX_RETURN_LINES,
    ensures
        hits_in(lines, f).len() > MAX_RETURN_LINES,
        at_most(hits_in(lines, f), MAX_RETURN_LINES as int) == at_most(
            hits_in(lines.take(n), f),
            MAX_RETURN_LINES as int,
        ),
    decreases lines.len(),
{
    if lines.len() > n {
        assert(lines.drop_last().take(n) =~= lines.take(n));
        law_search_ends(lines.drop_last(), f, n);
        assert(at_most(hits_in(lines, f), MAX_RETURN_LINES as int) =~= at_most(
            hits_in(lines.drop_last(), f),
            MAX_RETURN_LINES as int,
        ));
    } else {
        assert(lines.take(n) =~= lines);
    }
}

/// Every element stands on exactly one page, and pages are shown in order: the
/// element at place `i` is element `i % page_size` of page `i / page_size + 1`.
pub proof fn law_pages<T>(s: Seq<T>, page_size: int, i: int)
    requires
        0 < page_size,
        0 <= i < s.len(),
    ensures
        ({
            let p = page_of(s, i / page_size + 1, page_size);
            i % page_size < p.len() <= page_size && p[i % page_size] == s[i]
        }),
{
    let q = i / page_size;
    let r = i % page_size;
    vstd::arithmetic::div_mod::lemma_fundamental_div_mod(i, page_size);
    assert(q * page_size == i - r) by (nonlinear_arith)
        requires
            i == page_size * q + r,
    ;
    assert(0 <= r < page_size);
    assert(0 <= i - r) by (nonlinear_arith)
        requires
            i == page_size * q + r,
            q >= 0,
            page_size > 0,
    ;
    assert((q + 1 - 1) * page_size == q * page_size);
    assert(page_start(q + 1, page_size) == i - r);
}

/// A search finds no more lines than its limit, and without lines around the hits
/// a page shows no more than its size.
pub proof fn law_answer_limits(lines: Seq<Option<Seq<char>>>, f: FilterModel, view: PageView)
    ensures
        answer(lines, f, view).total <= MAX_RETURN_LINES,
        view.context == 0 ==> answer(lines, f, view).lines.len() <= view.page_size,
{
}

/// The lines of the context are exactly the readable lines near the hits, in the order
/// of the file; the hits are among them and marked, and no other line is marked.
pub proof fn law_context(
    lines: Seq<Option<Seq<char>>>,
    hits: Seq<HitModel>,
    context: int,
)
    requires
        0 <= context,
        lines.len() <= u64::MAX,
    ensures
        forall|k: int|
            0 <= k < hits.len() && 1 <= (#[trigger] hits[k]).no <= lines.len() && lines[hits[k].no
                - 1] == Some(hits[k].text) ==> context_lines(lines, hits, context).contains(
                LineModel { no: hits[k].no, text: hits[k].text, hit: true },
            ),
        forall|j: int|
            0 <= j < context_lines(lines, hits, context).len() ==> {
                let l = #[trigger] context_lines(lines, hits, context)[j];
                &&& 1 <= l.no <= lines.len()
                &&& lines[l.no - 1] == Some(l.text)
                &&& in_window(hits, context, l.no)
                &&& l.hit == is_hit(hits, l.no)
            },
        forall|n: int|
            1 <= n <= lines.len() && (#[trigger] lines[n - 1]) is Some && in_window(
                hits,
                context,
                n,
            ) ==> context_lines(lines, hits, context).contains(
                LineModel { no: n, text: lines[n - 1]->0, hit: is_hit(hits, n) },
            ),
        forall|i: int, j: int|
            0 <= i < j < context_lines(lines, hits, context).len() ==> (#[trigger] context_lines(
                lines,
                hits,
                context,
            )[i]).no < (#[trigger] context_lines(lines, hits, context)[j]).no,
    decreases lines.len(),
{
    if lines.len() > 0 {
        let front = lines.drop_last();
        law_context(front, hits, context);
        let a = context_lines(front, hits, context);
        let b = context_lines(lines, hits, context);
        assert(forall|j: int| 0 <= j < a.len() ==> b[j] == a[j]);
        assert forall|n: int|
            1 <= n <= lines.len() && (#[trigger] lines[n - 1]) is Some && in_window(
                hits,
                context,
                n,
            ) implies b.contains(
            LineModel { no: n, text: lines[n - 1]->0, hit: is_hit(hits, n) },
        ) by {
            let l = LineModel { no: n, text: lines[n - 1]->0, hit: is_hit(hits, n) };
            if n < lines.len() {
                assert(front[n - 1] == lines[n - 1]);
                let j = choose|j: int| 0 <= j < a.len() && a[j] == l;
                assert(b[j] == l);
            } else {
                assert(b[a.len() as int] == l);
            }
        }
        assert forall|k: int|
            0 <= k < hits.len() && 1 <= (#[trigger] hits[k]).no <= lines.len() && lines[hits[k].no
                - 1] == Some(hits[k].text) implies b.contains(
            LineModel { no: hits[k].no, text: hits[k].text, hit: true },
        ) by {
            let l = LineModel { no: hits[k].no, text: hits[k].text, hit: true };
            if hits[k].no < lines.len() {
                assert(front[hits[k].no - 1] == lines[hits[k].no - 1]);
                let j = choose|j: int| 0 <= j < a.len() && a[j] == l;
                assert(b[j] == l);
            } else {
                assert(near(hits[k].no, context, hits[k].no));
                assert(in_window(hits, context, hits[k].no));
                assert(is_hit(hits, hits[k].no));
                assert(b[a.len() as int] == l);
            }
        }
    }
}

/// Behind the last line near a hit nothing is added, so that the scan may end
/// there.
pub proof fn law_context_ends(
    lines: Seq<Option<Seq<char>>>,
    hits: Seq<HitModel>,
    context: int,
    n: int,
)
    requires
        0 <= n <= lines.len(),
        ends_window(hits, context, n),
    ensures
        context_lines(lines, hits, context) == context_lines(lines.take(n), hits, context),
    decreases lines.len(),
{
    if lines.len() > n {
        law_context_ends(lines.drop_last(), hits, context, n);
        assert(lines.drop_last().take(n) =~= lines.take(n));
        assert(!in_window(hits, context, lines.len() as int));
    } else {
        assert(lines.take(n) =~= lines);
    }
}

/// The lines of the reply to a search in a file with the given lines.
pub open spec fn answer_lines(
    lines: Seq<Option<Seq<char>>>,
    found: Seq<HitModel>,
    view: PageView,
) -> Seq<LineModel> {
    let page = page_hits(found, view);
    if needs_no_context(found, view) {
        as_shown(page)
    } else {
        in_order(context_lines(lines, page, view.context as int), view.newest_first)
    }
}

/// The reply to a search in a file with the given lines.
pub open spec fn answer(
    lines: Seq<Option<Seq<char>>>,
    f: FilterModel,
    view: PageView,
) -> ReplyModel {
    let found = at_most(hits_in(lines, f), MAX_RETURN_LINES as int);
    ReplyModel {
        total: found.len() as int,
        page: view.page as int,
        page_size: view.page_size as int,
        truncated: hits_in(lines, f).len() > MAX_RETURN_LINES,
        lines: answer_lines(lines, found, view),
    }
}

/// A search that reads the first `n` lines for the hits and the first `m` for the
/// lines near them, and ends early only where it was told to, gives the reply for
/// the whole file.
pub proof fn law_answer(
    lines: Seq<Option<Seq<char>>>,
    f: FilterModel,
    view: PageView,
    n: int,
    m: int,
)
    requires
        0 <= n <= lines.len(),
        n == lines.len() || hits_in(lines.take(n), f).len() > MAX_RETURN_LINES,
        0 <= m <= lines.len(),
        m == lines.len() || ends_window(
            page_hits(at_most(hits_in(lines.take(n), f), MAX_RETURN_LINES as int), view),
            view.context as int,
            m,
        ),
    ensures
        ({
            let found = at_most(hits_in(lines.take(n), f), MAX_RETURN_LINES as int);
            answer(lines, f, view) == (ReplyModel {
                total: found.len() as int,
                page: view.page as int,
                page_size: view.page_size as int,
                truncated: hits_in(lines.take(n), f).len() > MAX_RETURN_LINES,
                lines: answer_lines(lines.take(m), found, view),
            })
        }),
{
    let found = at_most(hits_in(lines.take(n), f), MAX_RETURN_LINES as int);
    if n < lines.len() {
        law_search_ends(lines, f, n);
    } else {
        assert(lines.take(n) =~= lines);
    }
    if m < lines.len() {
        law_context_ends(lines, page_hits(found, view), view.context as int, m);
    } else {
        assert(lines.take(m) =~= lines);
    }
}

/// Puts the numbers from `lo` to `hi` into the set.
fn insert_span(set: &mut HashSet<u64>, lo: u64, hi: u64)
    ensures
        forall|n: u64| #[trigger]
            final(set)@.contains(n) <==> old(set)@.contains(n) || lo <= n <= hi,
{
    broadcast use vstd::std_specs::hash::group_hash_axioms;

    if lo > hi {
        return;
    }
    let mut n: u64 = lo;
    let ghost before = set@;
    while n < hi
        invariant
            lo <= n <= hi,
            forall|m: u64| #[trigger] set@.contains(m) <==> before.contains(m) || lo <= m < n,
        decreases hi - n,
    {
        broadcast use vstd::std_specs::hash::group_hash_axioms;

        set.insert(n);
        n += 1;
    }
    set.insert(n);
}

/// One more hit adds the lines near it to the window.
proof fn lemma_window_grows(hits: Seq<HitModel>, context: int, k: int)
    requires
        0 <= k < hits.len(),
    ensures
        forall|n: int| #[trigger]
            in_window(hits.take(k + 1), context, n) <==> in_window(hits.take(k), context, n) || (1
                <= n <= u64::MAX && near(hits[k].no, context, n)),
        forall|n: int| #[trigger]
            is_hit(hits.take(k + 1), n) <==> is_hit(hits.take(k), n) || hits[k].no == n,
{
    let a = hits.take(k);
    let b = hits.take(k + 1);
    assert(b[k] == hits[k]);
    assert(forall|i: int| 0 <= i < k ==> #[trigger] a[i] == b[i]);
    assert forall|n: int| #[trigger] in_window(b, context, n) <==> in_window(a, context, n) || (1
        <= n <= u64::MAX && near(hits[k].no, context, n)) by {
        if in_window(b, context, n) {
            let i = choose|i: int| 0 <= i < b.len() && near((#[trigger] b[i]).no, context, n);
            if i < k {
                assert(near(a[i].no, context, n));
            }
        }
        if in_window(a, context, n) {
            let i = choose|i: int| 0 <= i < a.len() && near((#[trigger] a[i]).no, context, n);
            assert(near(b[i].no, context, n));
        }
    }
    assert forall|n: int| #[trigger] is_hit(b, n) <==> is_hit(a, n) || hits[k].no == n by {
        if is_hit(b, n) {
            let i = choose|i: int| 0 <= i < b.len() && (#[trigger] b[i]).no == n;
            if i < k {
                assert(a[i].no == n);
            }
        }
        if is_hit(a, n) {
            let i = choose|i: int| 0 <= i < a.len() && (#[trigger] a[i]).no == n;
            assert(b[i].no == n);
        }
    }
}

} // verus!
