//! Following a log: its last lines at first, then the lines that are added.

use vstd::prelude::*;
use vstd::utf8::{encode_scalar, encode_utf8};

use crate::filter::{Filter, FilterModel};
use crate::search::from;
use crate::text::{chars_of, read_lossy, split, split_text, bytes_text, text_of, texts};

verus! {

/// At most this many bytes at the end of a file are read for its last lines.
pub const TAIL_PROBE: u64 = 262144;

/// At most this many added bytes are read at a time.
pub const READ_LIMIT: u64 = 1048576;

/// `s` without the carriage return at its end.
pub open spec fn strip_return(s: Seq<char>) -> Seq<char> {
    if s.len() > 0 && s.last() == '\r' {
        s.drop_last()
    } else {
        s
    }
}

/// The lines of a text that are ended by a line feed, or a carriage return and a line
/// feed.
pub open spec fn ended_lines(text: Seq<char>) -> Seq<Seq<char>> {
    split(text, '\n').drop_last().map_values(|p: Seq<char>| strip_return(p))
}

/// The lines of a text: those that are ended, and what follows the last line feed
/// where it is not empty.
pub open spec fn lines_of(text: Seq<char>) -> Seq<Seq<char>> {
    let rest = split(text, '\n').last();
    if rest.len() == 0 {
        ended_lines(text)
    } else {
        ended_lines(text).push(rest)
    }
}

fn without_return(s: &str) -> (out: String)
    ensures
        out@ == strip_return(s@),
{
    let cs = chars_of(s);
    if cs.len() > 0 && cs[cs.len() - 1] == '\r' {
        let out = text_of(vstd::slice::slice_subrange(cs.as_slice(), 0, cs.len() - 1));
        assert(s@.subrange(0, s@.len() - 1) =~= s@.drop_last());
        out
    } else {
        s.to_owned()
    }
}

/// The lines of a text.
pub fn split_lines(text: &str) -> (out: Vec<String>)
    ensures
        texts(out@) == lines_of(text@),
{
    let parts = split_text(text, '\n');
    let ghost all = texts(parts@);
    let ghost ended = all.drop_last().map_values(|p: Seq<char>| strip_return(p));
    let last: usize = parts.len() - 1;
    let mut out: Vec<String> = Vec::new();
    let mut k: usize = 0;
    assert(texts(out@) =~= ended.take(0));
    while k < last
        invariant
            last == parts@.len() - 1,
            k <= last,
            all == texts(parts@),
            ended == all.drop_last().map_values(|p: Seq<char>| strip_return(p)),
            texts(out@) == ended.take(k as int),
        decreases last - k,
    {
        let line = without_return(parts[k].as_str());
        let ghost before = out@;
        out.push(line);
        assert(texts(before.push(line)) =~= texts(before).push(line@));
        assert(ended.take(k + 1) =~= ended.take(k as int).push(line@));
        k += 1;
    }
    assert(ended.take(k as int) =~= ended);
    if !parts[last].as_str().is_empty() {
        let line = parts[last].clone();
        let ghost before = out@;
        out.push(line);
        assert(texts(before.push(line)) =~= texts(before).push(line@));
    }
    out
}

/// The lines that the filter shows.
pub open spec fn kept(lines: Seq<Seq<char>>, f: FilterModel) -> Seq<Seq<char>>
    decreases lines.len(),
{
    if lines.len() == 0 {
        seq![]
    } else {
        let front = kept(lines.drop_last(), f);
        if f.shows(lines.last()) {
            front.push(lines.last())
        } else {
            front
        }
    }
}

/// The lines from `a` to `b` that the filter shows.
fn keep(lines: &Vec<String>, a: usize, b: usize, filter: &Filter) -> (out: Vec<String>)
    requires
        a <= b <= lines.len(),
    ensures
        texts(out@) == kept(texts(lines@).subrange(a as int, b as int), filter@),
{
    let ghost all = texts(lines@);
    let mut out: Vec<String> = Vec::new();
    let mut k: usize = a;
    assert(texts(out@) =~= kept(all.subrange(a as int, a as int), filter@));
    while k < b
        invariant
            a <= k <= b <= lines.len(),
            all == texts(lines@),
            texts(out@) == kept(all.subrange(a as int, k as int), filter@),
        decreases b - k,
    {
        assert(all.subrange(a as int, k + 1).drop_last() =~= all.subrange(a as int, k as int));
        if filter.shows(lines[k].as_str()) {
            let line = lines[k].clone();
            let ghost before = out@;
            out.push(line);
            assert(texts(before.push(line)) =~= texts(before).push(line@));
        }
        k += 1;
    }
    out
}

/// Lines that are sent to the viewer; with `reset` they replace what it shows.
#[derive(Debug)]
pub struct Append {
    pub lines: Vec<String>,
    pub reset: bool,
}

/// Lines are sent only where there are any.
pub open spec fn sends(append: Option<Append>, lines: Seq<Seq<char>>, reset: bool) -> bool {
    match append {
        Some(a) => lines.len() > 0 && texts(a.lines@) == lines && a.reset == reset,
        None => lines.len() == 0,
    }
}

fn to_send(lines: Vec<String>, reset: bool) -> (append: Option<Append>)
    ensures
        sends(append, texts(lines@), reset),
{
    assert(texts(lines@).len() == lines@.len());
    if lines.len() == 0 {
        None
    } else {
        Some(Append { lines, reset })
    }
}

/// How many bytes at the end of a file of `len` bytes are read for its last
/// `last_n` lines, if any.
pub open spec fn probe_of(len: u64, last_n: u64) -> Option<u64> {
    if last_n == 0 {
        None
    } else if len < TAIL_PROBE {
        Some(len)
    } else {
        Some(TAIL_PROBE)
    }
}

/// How many bytes at the end of a file of `len` bytes are read for its last
/// `last_n` lines, if any.
pub fn tail_probe(len: u64, last_n: u64) -> (probe: Option<u64>)
    ensures
        probe == if last_n == 0 {
            None::<u64>
        } else if len < TAIL_PROBE {
            Some(len)
        } else {
            Some(TAIL_PROBE)
        },
        probe == probe_of(len, last_n),
{
    if last_n == 0 {
        None
    } else if len < TAIL_PROBE {
        Some(len)
    } else {
        Some(TAIL_PROBE)
    }
}

/// The last `n` elements of `s`.
pub open spec fn last_of<T>(s: Seq<T>, n: int) -> Seq<T> {
    if s.len() <= n {
        s
    } else {
        s.skip(s.len() - n)
    }
}

/// What the filter shows of the last `n` lines of a text. Where the text is cut
/// off at its front its first line may be a part of one and is left out.
pub open spec fn tail_lines(
    text: Seq<char>,
    cut: bool,
    n: int,
    f: FilterModel,
) -> Seq<Seq<char>> {
    let all = lines_of(text);
    let whole = if cut {
        from(all, 1)
    } else {
        all
    };
    kept(last_of(whole, n), f)
}

/// The last lines of a text.
pub fn last_lines(text: &str, cut: bool, last_n: u64, filter: &Filter) -> (append: Option<Append>)
    ensures
        sends(append, tail_lines(text@, cut, last_n as int, filter@), true),
{
    let lines = split_lines(text);
    let ghost all = texts(lines@);
    let first: usize = if cut && lines.len() > 0 {
        1
    } else {
        0
    };
    let total: usize = lines.len() - first;
    let a: usize = if (total as u64) <= last_n {
        first
    } else {
        lines.len() - last_n as usize
    };
    proof {
        let whole = if cut {
            from(all, 1)
        } else {
            all
        };
        assert(last_of(whole, last_n as int) =~= all.subrange(a as int, all.len() as int));
    }
    to_send(keep(&lines, a, lines.len(), filter), true)
}

/// The last lines of a file of `len` bytes of which the bytes `buf` were read, up
/// to its end.
pub fn tail_from_end(buf: &[u8], len: u64, last_n: u64, filter: &Filter) -> (append: Option<Append>)
    ensures
        sends(
            append,
            tail_lines(bytes_text(buf@), buf@.len() < len, last_n as int, filter@),
            true,
        ),
{
    let text = read_lossy(buf);
    last_lines(text.as_str(), (buf.len() as u64) < len, last_n, filter)
}

/// Where a file is read on that was read up to `offset` and is `len` bytes long
/// now: at its front where it has become shorter. Nothing where it cannot be read
/// at the moment.
pub open spec fn offset_after(offset: u64, len: Option<u64>) -> Option<u64> {
    match len {
        Some(len) => if len < offset {
            Some(0)
        } else {
            Some(offset)
        },
        None => None,
    }
}

/// Where a file is read on that was read up to `offset`.
pub fn poll_offset(offset: u64, len: Option<u64>) -> (at: Option<u64>)
    ensures
        at == offset_after(offset, len),
{
    match len {
        Some(len) => if len < offset {
            Some(0)
        } else {
            Some(offset)
        },
        None => None,
    }
}

/// How many bytes are read of what was added to a file behind `offset`, if any.
pub open spec fn span_behind(offset: u64, len: Option<u64>) -> Option<u64> {
    match len {
        Some(len) => if len <= offset {
            None
        } else if len - offset < READ_LIMIT {
            Some((len - offset) as u64)
        } else {
            Some(READ_LIMIT)
        },
        None => None,
    }
}

/// How many bytes are read of what was added to a file behind `offset`.
pub fn read_span(offset: u64, len: Option<u64>) -> (take: Option<u64>)
    ensures
        take == span_behind(offset, len),
{
    match len {
        Some(len) => if len <= offset {
            None
        } else if len - offset < READ_LIMIT {
            Some(len - offset)
        } else {
            Some(READ_LIMIT)
        },
        None => None,
    }
}

/// The byte that ends a line.
pub const LINE_FEED: u8 = 10;

/// How many bytes there are up to and with the last line feed; none where there is no
/// line feed.
pub open spec fn finished_len(b: Seq<u8>) -> nat
    decreases b.len(),
{
    if b.len() == 0 {
        0
    } else if b.last() == LINE_FEED {
        b.len()
    } else {
        finished_len(b.drop_last())
    }
}

/// The bytes of a line without the carriage return at their end.
pub open spec fn line_bytes(b: Seq<u8>) -> Seq<u8> {
    if b.len() > 0 && b.last() == 13 {
        b.drop_last()
    } else {
        b
    }
}

/// The lines in `b` that are finished: those that a line feed follows.
pub open spec fn finished_lines(b: Seq<u8>) -> Seq<Seq<char>> {
    split(b, LINE_FEED).drop_last().map_values(|line: Seq<u8>| bytes_text(line_bytes(line)))
}

fn read_line(bytes: &[u8]) -> (line: String)
    ensures
        line@ == bytes_text(line_bytes(bytes@)),
{
    let n: usize = bytes.len();
    if n > 0 && bytes[n - 1] == 13 {
        assert(bytes@.subrange(0, n - 1) =~= bytes@.drop_last());
        read_lossy(vstd::slice::slice_subrange(bytes, 0, n - 1))
    } else {
        read_lossy(bytes)
    }
}

/// The finished lines in `buf`, and how many bytes they take.
pub fn read_finished(buf: &[u8]) -> (r: (Vec<String>, usize))
    ensures
        texts(r.0@) == finished_lines(buf@),
        r.1 == finished_len(buf@),
        r.1 <= buf@.len(),
{
    let mut lines: Vec<String> = Vec::new();
    let mut start: usize = 0;
    let mut i: usize = 0;
    assert(buf@.take(0) =~= Seq::<u8>::empty());
    assert(split(buf@.take(0), LINE_FEED) =~= seq![Seq::<u8>::empty()]);
    assert(buf@.subrange(0, 0) =~= Seq::<u8>::empty());
    assert(texts(lines@) =~= finished_lines(buf@.take(0)));
    while i < buf.len()
        invariant
            start <= i <= buf.len(),
            start == finished_len(buf@.take(i as int)),
            split(buf@.take(i as int), LINE_FEED).len() > 0,
            split(buf@.take(i as int), LINE_FEED).last() == buf@.subrange(start as int, i as int),
            texts(lines@) == finished_lines(buf@.take(i as int)),
        decreases buf.len() - i,
    {
        let ghost done = buf@.take(i as int);
        let ghost next = buf@.take(i + 1);
        let ghost parts = split(done, LINE_FEED);
        assert(next.drop_last() =~= done);
        assert(next.last() == buf@[i as int]);
        if buf[i] == LINE_FEED {
            let line = read_line(vstd::slice::slice_subrange(buf, start, i));
            let ghost before = lines@;
            lines.push(line);
            assert(texts(before.push(line)) =~= texts(before).push(line@));
            assert(parts.push(seq![]).drop_last() =~= parts);
            assert(finished_lines(next) =~= finished_lines(done).push(line@));
            start = i + 1;
            assert(buf@.subrange(start as int, start as int) =~= Seq::<u8>::empty());
        } else {
            let ghost part = parts.last().push(buf@[i as int]);
            assert(parts.drop_last().push(part).drop_last() =~= parts.drop_last());
            assert(buf@.subrange(start as int, i + 1) =~= part);
        }
        i += 1;
    }
    assert(buf@.take(i as int) =~= buf@);
    (lines, start)
}

/// What is sent of lines that were added.
pub fn new_lines(lines: &Vec<String>, filter: &Filter) -> (append: Option<Append>)
    ensures
        sends(append, kept(texts(lines@), filter@), false),
{
    assert(texts(lines@).subrange(0, lines@.len() as int) =~= texts(lines@));
    to_send(keep(lines, 0, lines.len(), filter), false)
}

/// What is sent of added bytes, and where the file is read on.
#[derive(Debug)]
pub struct Fresh {
    pub append: Option<Append>,
    pub offset: u64,
}

/// What is sent of the bytes `buf` that were read behind `offset`, and where the file is
/// read on: behind the last finished line, so that a line that may go on is read again
/// as a whole.
pub fn read_new_lines(buf: &[u8], offset: u64, filter: &Filter) -> (fresh: Fresh)
    requires
        offset + buf@.len() <= u64::MAX,
    ensures
        sends(fresh.append, kept(finished_lines(buf@), filter@), false),
        fresh.offset == offset + finished_len(buf@),
        offset <= fresh.offset <= offset + buf@.len(),
{
    let (lines, n) = read_finished(buf);
    Fresh { append: new_lines(&lines, filter), offset: offset + n as u64 }
}

/// A stream that is followed: what it shows, and up to where its file was read.
#[derive(Debug)]
pub struct Follower {
    pub filter: Filter,
    pub offset: u64,
}

/// A part of a file that is to be read.
#[derive(Debug, PartialEq, Eq, Structural)]
pub struct Span {
    pub at: u64,
    pub take: u64,
}

impl Follower {
    /// A stream of a file of `len` bytes, of which what is added from now on is read.
    pub fn start(len: u64, filter: Filter) -> (f: Follower)
        ensures
            f.offset == len,
            f.filter == filter,
    {
        Follower { filter, offset: len }
    }

    /// What is to be read of the file after a look at it: `first` and `second` are
    /// its lengths at two looks in a row, nothing where it could not be read. A file
    /// that has become shorter is read from its front.
    pub fn poll(&mut self, first: Option<u64>, second: Option<u64>) -> (span: Option<Span>)
        ensures
            final(self).filter == old(self).filter,
            match offset_after(old(self).offset, first) {
                None => final(self).offset == old(self).offset && span is None,
                Some(at) => final(self).offset == at && match span_behind(at, second) {
                    Some(take) => span == Some(Span { at, take }),
                    None => span is None,
                },
            },
    {
        match poll_offset(self.offset, first) {
            Some(at) => {
                self.offset = at;
                match read_span(at, second) {
                    Some(take) => Some(Span { at, take }),
                    None => None,
                }
            },
            None => None,
        }
    }

    /// What is sent of the bytes that were read behind the offset. The file is read
    /// on behind the last finished line.
    pub fn take_in(&mut self, buf: &[u8]) -> (append: Option<Append>)
        requires
            old(self).offset + buf@.len() <= u64::MAX,
        ensures
            final(self).filter == old(self).filter,
            sends(append, kept(finished_lines(buf@), old(self).filter@), false),
            final(self).offset == old(self).offset + finished_len(buf@),
            old(self).offset <= final(self).offset,
    {
        let fresh = read_new_lines(buf, self.offset, &self.filter);
        self.offset = fresh.offset;
        fresh.append
    }
}

/// A stream starts with no more lines than it was asked for.
pub proof fn law_tail_limit(text: Seq<char>, cut: bool, n: int, f: FilterModel)
    requires
        0 <= n,
    ensures
        tail_lines(text, cut, n, f).len() <= n,
{
    let all = lines_of(text);
    let whole = if cut {
        from(all, 1)
    } else {
        all
    };
    lemma_kept_len(last_of(whole, n), f);
}

proof fn lemma_kept_len(lines: Seq<Seq<char>>, f: FilterModel)
    ensures
        kept(lines, f).len() <= lines.len(),
    decreases lines.len(),
{
    if lines.len() > 0 {
        lemma_kept_len(lines.drop_last(), f);
    }
}

/// Bytes that are cut behind a line feed have the finished lines of their two parts.
pub proof fn law_pieces_join(a: Seq<u8>, b: Seq<u8>)
    requires
        a.len() == 0 || a.last() == LINE_FEED,
    ensures
        finished_lines(a + b) == finished_lines(a) + finished_lines(b),
        finished_len(a + b) == a.len() + finished_len(b),
{
    lemma_split_join(a, b);
    lemma_split_some(a);
    lemma_split_some(b);
    let pa = split(a, LINE_FEED);
    let pb = split(b, LINE_FEED);
    assert((pa.drop_last() + pb).drop_last() =~= pa.drop_last() + pb.drop_last());
    assert(finished_lines(a + b) =~= finished_lines(a) + finished_lines(b));
    lemma_finished_join(a, b);
}

/// Behind the last finished line stands what may be the front of a line; it has no
/// line feed and begins where a line begins, so that it is read again as a whole.
pub proof fn law_unfinished_line(b: Seq<u8>)
    ensures
        finished_len(b) <= b.len(),
        finished_len(b) == 0 || b[finished_len(b) - 1] == LINE_FEED,
        !b.skip(finished_len(b) as int).contains(LINE_FEED),
        finished_lines(b) == finished_lines(b.take(finished_len(b) as int)),
{
    lemma_finished_len(b);
    let n = finished_len(b) as int;
    let front = b.take(n);
    let back = b.skip(n);
    assert(b =~= front + back);
    assert(front.len() == 0 || front.last() == b[n - 1]);
    law_pieces_join(front, back);
    lemma_no_feed(back);
    assert(finished_lines(back) =~= Seq::<Seq<char>>::empty());
    assert(finished_lines(b) =~= finished_lines(front));
}

/// Where a file is read on after rounds that read it up to `ends`, one after the
/// other, from `at` on. A round that has nothing to read changes nothing.
pub open spec fn offset_of_rounds(data: Seq<u8>, at: int, ends: Seq<int>) -> int
    decreases ends.len(),
{
    if ends.len() == 0 {
        at
    } else {
        let from = offset_of_rounds(data, at, ends.drop_last());
        if 0 <= from <= ends.last() <= data.len() {
            from + finished_len(data.subrange(from, ends.last()))
        } else {
            from
        }
    }
}

/// What is sent in those rounds.
pub open spec fn sent_in_rounds(
    data: Seq<u8>,
    at: int,
    ends: Seq<int>,
    f: FilterModel,
) -> Seq<Seq<char>>
    decreases ends.len(),
{
    if ends.len() == 0 {
        seq![]
    } else {
        let front = sent_in_rounds(data, at, ends.drop_last(), f);
        let from = offset_of_rounds(data, at, ends.drop_last());
        if 0 <= from <= ends.last() <= data.len() {
            front + kept(finished_lines(data.subrange(from, ends.last())), f)
        } else {
            front
        }
    }
}

/// However a file is cut into rounds, what is sent are the finished lines that the
/// filter shows, in order and each once: those up to where the file is read on, and all
/// there are once a round has read up to the end.
pub proof fn law_follow(data: Seq<u8>, at: int, ends: Seq<int>, f: FilterModel)
    requires
        0 <= at <= data.len(),
    ensures
        ({
            let to = offset_of_rounds(data, at, ends);
            let sent = sent_in_rounds(data, at, ends, f);
            &&& at <= to <= data.len()
            &&& to == at || data[to - 1] == LINE_FEED
            &&& sent == kept(finished_lines(data.subrange(at, to)), f)
            &&& ends.len() > 0 && ends.last() == data.len() ==> to == at + finished_len(
                data.skip(at),
            ) && sent == kept(finished_lines(data.skip(at)), f)
        }),
    decreases ends.len(),
{
    if ends.len() == 0 {
        assert(data.subrange(at, at) =~= Seq::<u8>::empty());
        reveal_with_fuel(split, 2);
        assert(finished_lines(data.subrange(at, at)) =~= Seq::<Seq<char>>::empty());
    } else {
        law_follow(data, at, ends.drop_last(), f);
        let from = offset_of_rounds(data, at, ends.drop_last());
        let end = ends.last();
        if from <= end <= data.len() {
            let read = data.subrange(from, end);
            let n = finished_len(read) as int;
            law_unfinished_line(read);
            assert(n > 0 ==> read[n - 1] == data[from + n - 1]);
            let before = data.subrange(at, from);
            assert(before.len() > 0 ==> before.last() == data[from - 1]);
            assert(read.take(n) =~= data.subrange(from, from + n));
            assert(data.subrange(at, from + n) =~= before + read.take(n));
            law_pieces_join(before, read.take(n));
            lemma_kept_join(finished_lines(before), finished_lines(read), f);
            if end == data.len() {
                assert(data.skip(at) =~= before + read);
                law_pieces_join(before, read);
            }
        }
    }
}

proof fn lemma_kept_join(a: Seq<Seq<char>>, b: Seq<Seq<char>>, f: FilterModel)
    ensures
        kept(a + b, f) == kept(a, f) + kept(b, f),
    decreases b.len(),
{
    if b.len() == 0 {
        assert(a + b =~= a);
        assert(kept(a, f) + kept(b, f) =~= kept(a, f));
    } else {
        lemma_kept_join(a, b.drop_last(), f);
        assert((a + b).drop_last() =~= a + b.drop_last());
        assert((a + b).last() == b.last());
        assert(kept(a + b, f) =~= kept(a, f) + kept(b, f));
    }
}

proof fn lemma_finished_len(b: Seq<u8>)
    ensures
        finished_len(b) <= b.len(),
        finished_len(b) == 0 || b[finished_len(b) - 1] == LINE_FEED,
        forall|k: int| finished_len(b) <= k < b.len() ==> #[trigger] b[k] != LINE_FEED,
    decreases b.len(),
{
    if b.len() > 0 && b.last() != LINE_FEED {
        lemma_finished_len(b.drop_last());
        assert forall|k: int| finished_len(b) <= k < b.len() implies #[trigger] b[k]
            != LINE_FEED by {
            if k < b.len() - 1 {
                assert(b.drop_last()[k] == b[k]);
            }
        }
    }
}

proof fn lemma_finished_join(a: Seq<u8>, b: Seq<u8>)
    requires
        a.len() == 0 || a.last() == LINE_FEED,
    ensures
        finished_len(a + b) == a.len() + finished_len(b),
    decreases b.len(),
{
    if b.len() == 0 {
        assert(a + b =~= a);
    } else {
        assert((a + b).drop_last() =~= a + b.drop_last());
        assert((a + b).last() == b.last());
        if b.last() != LINE_FEED {
            lemma_finished_join(a, b.drop_last());
        }
    }
}

proof fn lemma_split_some<T>(s: Seq<T>)
    ensures
        forall|sep: T| (#[trigger] split(s, sep)).len() > 0,
    decreases s.len(),
{
    if s.len() > 0 {
        lemma_split_some(s.drop_last());
        assert forall|sep: T| (#[trigger] split(s, sep)).len() > 0 by {
            assert(split(s.drop_last(), sep).len() > 0);
        }
    }
}

proof fn lemma_split_join(a: Seq<u8>, b: Seq<u8>)
    requires
        a.len() == 0 || a.last() == LINE_FEED,
    ensures
        split(a + b, LINE_FEED) == split(a, LINE_FEED).drop_last() + split(b, LINE_FEED),
    decreases b.len(),
{
    let pa = split(a, LINE_FEED);
    lemma_split_some(a);
    if b.len() == 0 {
        assert(a + b =~= a);
        assert(pa.last() =~= Seq::<u8>::empty());
        assert(pa =~= pa.drop_last() + split(b, LINE_FEED));
    } else {
        lemma_split_join(a, b.drop_last());
        lemma_split_some(b.drop_last());
        assert((a + b).drop_last() =~= a + b.drop_last());
        let pb = split(b.drop_last(), LINE_FEED);
        assert((a + b).last() == b.last());
        if b.last() == LINE_FEED {
            assert((pa.drop_last() + pb).push(seq![]) =~= pa.drop_last() + pb.push(seq![]));
        } else {
            assert((pa.drop_last() + pb).last() == pb.last());
            assert((pa.drop_last() + pb).drop_last().push(pb.last().push(b.last()))
                =~= pa.drop_last() + pb.drop_last().push(pb.last().push(b.last())));
        }
    }
}

/// Bytes without a line feed hold no finished line.
proof fn lemma_no_feed(s: Seq<u8>)
    requires
        !s.contains(LINE_FEED),
    ensures
        split(s, LINE_FEED) == seq![s],
    decreases s.len(),
{
    if s.len() > 0 {
        let front = s.drop_last();
        assert(!front.contains(LINE_FEED)) by {
            assert forall|k: int| 0 <= k < front.len() implies front[k] != LINE_FEED by {
                assert(s.contains(s[k]));
            }
        }
        assert(s.contains(s[s.len() - 1]));
        lemma_no_feed(front);
        assert(front.push(s.last()) =~= s);
        assert(split(s, LINE_FEED) =~= seq![s]);
    } else {
        assert(s =~= Seq::<u8>::empty());
    }
}

/// The finished lines in the bytes of a text are the lines of the text that are ended.
pub proof fn law_finished_text(text: Seq<char>)
    ensures
        finished_lines(encode_utf8(text)) == ended_lines(text),
{
    lemma_split_bytes(text);
    let parts = split(text, '\n');
    let lines = split(encode_utf8(text), LINE_FEED);
    assert forall|k: int| 0 <= k < parts.len() - 1 implies bytes_text(
        line_bytes(#[trigger] lines[k]),
    ) == strip_return(parts[k]) by {
        lemma_line_bytes(parts[k]);
        let line = strip_return(parts[k]);
        vstd::utf8::encode_utf8_valid_utf8(line);
        vstd::utf8::encode_utf8_decode_utf8(line);
    }
    assert(finished_lines(encode_utf8(text)) =~= ended_lines(text));
}

/// The bytes of a text are those of its front and of its last character.
proof fn lemma_encode_last(s: Seq<char>)
    requires
        s.len() > 0,
    ensures
        encode_utf8(s) == encode_utf8(s.drop_last()) + encode_scalar(s.last() as u32),
    decreases s.len(),
{
    if s.len() == 1 {
        assert(s.drop_first() =~= Seq::<char>::empty());
        assert(s.drop_last() =~= Seq::<char>::empty());
        assert(encode_utf8(s) =~= encode_utf8(s.drop_last()) + encode_scalar(s.last() as u32));
    } else {
        let rest = s.drop_first();
        lemma_encode_last(rest);
        assert(rest.drop_last() =~= s.drop_last().drop_first());
        assert(encode_utf8(s) =~= encode_utf8(s.drop_last()) + encode_scalar(s.last() as u32));
    }
}

/// The bytes of a character hold a line feed or a carriage return only where it is
/// one.
proof fn lemma_scalar_bytes(c: char)
    ensures
        c == '\n' ==> encode_scalar(c as u32) == seq![LINE_FEED],
        c == '\r' ==> encode_scalar(c as u32) == seq![13u8],
        encode_scalar(c as u32).len() > 0,
        c != '\n' ==> forall|k: int|
            0 <= k < encode_scalar(c as u32).len() ==> #[trigger] encode_scalar(c as u32)[k]
                != LINE_FEED,
        c != '\r' ==> encode_scalar(c as u32).last() != 13,
{
    let v = c as u32;
    assert(v <= 0x7f ==> (v & 0x7f) as u8 == v) by (bit_vector);
    assert forall|x: u8| #[trigger] (0x80u8 | x) >= 0x80 by {
        assert((0x80u8 | x) >= 0x80) by (bit_vector);
    }
    assert forall|x: u8| #[trigger] (0xc0u8 | x) >= 0x80 by {
        assert((0xc0u8 | x) >= 0x80) by (bit_vector);
    }
    assert forall|x: u8| #[trigger] (0xe0u8 | x) >= 0x80 by {
        assert((0xe0u8 | x) >= 0x80) by (bit_vector);
    }
    assert forall|x: u8| #[trigger] (0xf0u8 | x) >= 0x80 by {
        assert((0xf0u8 | x) >= 0x80) by (bit_vector);
    }
    if v <= 0x7f {
        assert(encode_scalar(v) =~= seq![c as u8]);
    }
}

/// Bytes without a line feed make the last part longer.
proof fn lemma_split_append(b: Seq<u8>, es: Seq<u8>)
    requires
        forall|k: int| 0 <= k < es.len() ==> #[trigger] es[k] != LINE_FEED,
    ensures
        split(b + es, LINE_FEED) == split(b, LINE_FEED).drop_last().push(
            split(b, LINE_FEED).last() + es,
        ),
    decreases es.len(),
{
    lemma_split_some(b);
    let parts = split(b, LINE_FEED);
    if es.len() == 0 {
        assert(b + es =~= b);
        assert(parts.last() + es =~= parts.last());
        assert(parts.drop_last().push(parts.last()) =~= parts);
    } else {
        let front = es.drop_last();
        assert(es[es.len() - 1] != LINE_FEED);
        assert forall|k: int| 0 <= k < front.len() implies #[trigger] front[k] != LINE_FEED by {
            assert(es[k] != LINE_FEED);
        }
        lemma_split_append(b, front);
        assert((b + es).drop_last() =~= b + front);
        assert((b + es).last() == es.last());
        let longer = parts.drop_last().push(parts.last() + front);
        assert(longer.drop_last() =~= parts.drop_last());
        assert((parts.last() + front).push(es.last()) =~= parts.last() + es);
    }
}

/// The parts of the bytes of a text are the bytes of its parts.
proof fn lemma_split_bytes(text: Seq<char>)
    ensures
        split(encode_utf8(text), LINE_FEED).len() == split(text, '\n').len(),
        forall|k: int|
            0 <= k < split(text, '\n').len() ==> #[trigger] split(
                encode_utf8(text),
                LINE_FEED,
            )[k] == encode_utf8(split(text, '\n')[k]),
    decreases text.len(),
{
    if text.len() == 0 {
        assert(encode_utf8(text) =~= Seq::<u8>::empty());
        assert(encode_utf8(Seq::<char>::empty()) =~= Seq::<u8>::empty());
    } else {
        let front = text.drop_last();
        let c = text.last();
        let b = encode_utf8(front);
        let es = encode_scalar(c as u32);
        lemma_split_bytes(front);
        lemma_encode_last(text);
        lemma_scalar_bytes(c);
        lemma_split_some(front);
        let parts = split(front, '\n');
        let lines = split(b, LINE_FEED);
        if c == '\n' {
            assert((b + es).drop_last() =~= b);
            assert(encode_utf8(Seq::<char>::empty()) =~= Seq::<u8>::empty());
        } else {
            lemma_split_append(b, es);
            let part = parts.last().push(c);
            lemma_encode_last(part);
            assert(part.drop_last() =~= parts.last());
            assert(encode_utf8(part) == lines.last() + es);
        }
    }
}

/// A line loses its carriage return as text as it does as bytes.
proof fn lemma_line_bytes(line: Seq<char>)
    ensures
        line_bytes(encode_utf8(line)) == encode_utf8(strip_return(line)),
{
    if line.len() > 0 {
        let c = line.last();
        let es = encode_scalar(c as u32);
        lemma_encode_last(line);
        lemma_scalar_bytes(c);
        let b = encode_utf8(line);
        assert(b.last() == es.last());
        if c == '\r' {
            assert(b.drop_last() =~= encode_utf8(line.drop_last()));
        }
    } else {
        assert(encode_utf8(line) =~= Seq::<u8>::empty());
    }
}

} // verus!
