//! The download of the lines that a filter shows, chunk by chunk.

use vstd::prelude::*;

use crate::filter::{Filter, FilterModel};
use crate::json::string_view;
use crate::search::{at_most, from, hits_in, HitModel};
use crate::text::texts;

verus! {

/// The texts of the lines of a file that the filter shows.
pub open spec fn matching(lines: Seq<Option<Seq<char>>>, f: FilterModel) -> Seq<Seq<char>> {
    hits_in(lines, f).map_values(|h: HitModel| h.text)
}

/// The lines of a chunk: at most `length` of them, behind the first `offset`.
pub open spec fn chunk_of(all: Seq<Seq<char>>, offset: int, length: int) -> Seq<Seq<char>> {
    at_most(from(all, offset), length)
}

/// Nothing that the filter shows follows the chunk.
pub open spec fn is_last_chunk(all: Seq<Seq<char>>, offset: int, length: int) -> bool {
    all.len() <= offset + chunk_of(all, offset, length).len()
}

/// A chunk of a download: its lines, the offset of the next one, and whether it is
/// the last one.
#[derive(Debug)]
pub struct Chunk {
    pub lines: Vec<String>,
    pub next_offset: u64,
    pub eof: bool,
}

/// A download that is handed the lines of a file one by one.
pub struct DownloadScan {
    filter: Filter,
    offset: u64,
    length: u64,
    skipped: u64,
    lines: Vec<String>,
    beyond: bool,
    seen: Ghost<Seq<Option<Seq<char>>>>,
}

impl DownloadScan {
    /// The lines that the download was handed.
    pub closed spec fn seen(&self) -> Seq<Option<Seq<char>>> {
        self.seen@
    }

    /// The filter of the download.
    pub closed spec fn filter(&self) -> FilterModel {
        self.filter@
    }

    /// How many lines are left out at the front.
    pub closed spec fn offset(&self) -> int {
        self.offset as int
    }

    /// The most lines that a chunk holds.
    pub closed spec fn length(&self) -> int {
        self.length as int
    }

    /// What was gathered is the chunk of the lines that were seen.
    pub closed spec fn wf(&self) -> bool {
        let all = matching(self.seen@, self.filter@);
        &&& self.length >= 1
        &&& self.seen@.len() <= u64::MAX
        &&& self.skipped == if all.len() < self.offset {
            all.len() as int
        } else {
            self.offset as int
        }
        &&& texts(self.lines@) == chunk_of(all, self.offset as int, self.length as int)
        &&& self.beyond == (all.len() > self.offset + self.length)
    }

    /// A download that has seen no line.
    pub fn new(filter: Filter, offset: u64, length: u64) -> (d: DownloadScan)
        requires
            length >= 1,
        ensures
            d.wf(),
            d.filter() == filter@,
            d.offset() == offset,
            d.length() == length,
            d.seen() == Seq::<Option<Seq<char>>>::empty(),
    {
        let d = DownloadScan {
            filter,
            offset,
            length,
            skipped: 0,
            lines: Vec::new(),
            beyond: false,
            seen: Ghost(Seq::empty()),
        };
        assert(texts(d.lines@) =~= chunk_of(
            matching(d.seen@, d.filter@),
            d.offset as int,
            d.length as int,
        ));
        d
    }

    /// Takes the next line of the file, nothing where it cannot be read. The
    /// result says whether the download goes on: it ends with the first line behind
    /// the chunk that the filter shows.
    pub fn feed(&mut self, line: Option<String>) -> (more: bool)
        requires
            old(self).wf(),
            old(self).seen().len() < u64::MAX,
        ensures
            final(self).wf(),
            final(self).filter() == old(self).filter(),
            final(self).offset() == old(self).offset(),
            final(self).length() == old(self).length(),
            final(self).seen() == old(self).seen().push(string_view(line)),
            more == (matching(final(self).seen(), old(self).filter()).len() <= old(self).offset()
                + old(self).length()),
    {
        let ghost lines = self.seen@.push(string_view(line));
        let ghost front = matching(self.seen@, self.filter@);
        let ghost all = matching(lines, self.filter@);
        let ghost before = self.lines@;
        let ghost (o, n) = (self.offset as int, self.length as int);
        proof {
            assert(lines.drop_last() =~= self.seen@);
            lemma_matching_grows(lines, self.filter@);
            assert(texts(before).len() == before.len());
        }
        self.seen = Ghost(lines);
        if self.beyond {
            assert(chunk_of(all, o, n) =~= chunk_of(front, o, n));
            return false;
        }
        match line {
            Some(text) => {
                if self.filter.shows(text.as_str()) {
                    if self.skipped < self.offset {
                        assert(chunk_of(all, o, n) =~= chunk_of(front, o, n));
                        self.skipped = self.skipped + 1;
                    } else if (self.lines.len() as u64) < self.length {
                        assert(texts(before.push(text)) =~= texts(before).push(text@));
                        assert(chunk_of(all, o, n) =~= chunk_of(front, o, n).push(text@));
                        self.lines.push(text);
                    } else {
                        assert(chunk_of(all, o, n) =~= chunk_of(front, o, n));
                        self.beyond = true;
                    }
                }
            },
            None => {},
        }
        !self.beyond
    }

    /// The chunk.
    pub fn finish(self) -> (c: Chunk)
        requires
            self.wf(),
        ensures
            texts(c.lines@) == chunk_of(
                matching(self.seen(), self.filter()),
                self.offset(),
                self.length(),
            ),
            c.next_offset == self.offset() + c.lines@.len(),
            c.eof == (matching(self.seen(), self.filter()).len() <= self.offset()
                + c.lines@.len()),
            c.eof == is_last_chunk(
                matching(self.seen(), self.filter()),
                self.offset(),
                self.length(),
            ),
    {
        proof {
            lemma_matching_fits(self.seen@, self.filter@);
            assert(texts(self.lines@).len() == self.lines@.len());
        }
        let count: u64 = self.lines.len() as u64;
        Chunk { lines: self.lines, next_offset: self.offset + count, eof: !self.beyond }
    }
}

/// One more line adds its text to the lines that are shown, or nothing.
proof fn lemma_matching_grows(lines: Seq<Option<Seq<char>>>, f: FilterModel)
    requires
        lines.len() > 0,
    ensures
        matching(lines, f) == match lines.last() {
            Some(text) => if f.shows(text) {
                matching(lines.drop_last(), f).push(text)
            } else {
                matching(lines.drop_last(), f)
            },
            None => matching(lines.drop_last(), f),
        },
{
    match lines.last() {
        Some(text) => {
            if f.shows(text) {
                assert(matching(lines, f) =~= matching(lines.drop_last(), f).push(text));
            }
        },
        None => {},
    }
}

proof fn lemma_matching_fits(lines: Seq<Option<Seq<char>>>, f: FilterModel)
    ensures
        matching(lines, f).len() <= lines.len(),
    decreases lines.len(),
{
    if lines.len() > 0 {
        lemma_matching_fits(lines.drop_last(), f);
    }
}

/// A chunk and the one that begins at its next offset give the same lines as one
/// chunk as long as both; nothing follows the last chunk.
pub proof fn law_chunks_join(all: Seq<Seq<char>>, offset: int, length: int, further: int)
    requires
        0 <= offset,
        0 <= length,
        0 <= further,
    ensures
        ({
            let first = chunk_of(all, offset, length);
            let next = offset + first.len();
            &&& first + chunk_of(all, next, further) == chunk_of(all, offset, length + further)
            &&& all.len() <= next ==> chunk_of(all, next, further).len() == 0
            &&& all.len() > next && further > 0 ==> chunk_of(all, next, further).len() > 0
        }),
{
    let first = chunk_of(all, offset, length);
    let next = offset + first.len();
    assert(first + chunk_of(all, next, further) =~= chunk_of(all, offset, length + further));
}

/// A download that reads the first `n` lines of a file, and ends early only where it
/// was told to, gives the chunk of the whole file and knows whether it is the last.
pub proof fn law_download_ends(
    lines: Seq<Option<Seq<char>>>,
    f: FilterModel,
    offset: int,
    length: int,
    n: int,
)
    requires
        0 <= offset,
        0 <= length,
        0 <= n <= lines.len(),
        n == lines.len() || matching(lines.take(n), f).len() > offset + length,
    ensures
        ({
            let chunk = chunk_of(matching(lines, f), offset, length);
            &&& chunk_of(matching(lines.take(n), f), offset, length) == chunk
            &&& (matching(lines.take(n), f).len() <= offset + chunk.len()) == (matching(
                lines,
                f,
            ).len() <= offset + chunk.len())
        }),
    decreases lines.len(),
{
    if n < lines.len() {
        let front = lines.drop_last();
        assert(front.take(n) =~= lines.take(n));
        law_download_ends(front, f, offset, length, n);
        lemma_matching_grows(lines, f);
        lemma_matching_prefix(front, f, n);
        assert(chunk_of(matching(lines, f), offset, length) =~= chunk_of(
            matching(front, f),
            offset,
            length,
        ));
    } else {
        assert(lines.take(n) =~= lines);
    }
}

proof fn lemma_matching_prefix(lines: Seq<Option<Seq<char>>>, f: FilterModel, n: int)
    requires
        0 <= n <= lines.len(),
    ensures
        matching(lines.take(n), f).len() <= matching(lines, f).len(),
    decreases lines.len(),
{
    if n < lines.len() {
        assert(lines.drop_last().take(n) =~= lines.take(n));
        lemma_matching_prefix(lines.drop_last(), f, n);
        lemma_matching_grows(lines, f);
    } else {
        assert(lines.take(n) =~= lines);
    }
}

/// What a viewer puts together that asks for chunk after chunk, each from the next
/// offset of the one before, until one is the last.
pub open spec fn chunks_from(all: Seq<Seq<char>>, offset: int, length: int) -> Seq<Seq<char>>
    decreases all.len() - offset,
{
    let chunk = chunk_of(all, offset, length);
    if length < 1 || all.len() <= offset + length {
        chunk
    } else {
        chunk + chunks_from(all, offset + length, length)
    }
}

/// The chunks of a download put together are all lines that the filter shows.
pub proof fn law_download_is_complete(lines: Seq<Option<Seq<char>>>, f: FilterModel, length: int)
    requires
        length >= 1,
    ensures
        chunks_from(matching(lines, f), 0, length) == matching(lines, f),
{
    let all = matching(lines, f);
    lemma_chunks_from(all, 0, length);
    assert(from(all, 0) =~= all);
}

proof fn lemma_chunks_from(all: Seq<Seq<char>>, offset: int, length: int)
    requires
        0 <= offset,
        length >= 1,
    ensures
        chunks_from(all, offset, length) == from(all, offset),
    decreases all.len() - offset,
{
    if all.len() > offset + length {
        lemma_chunks_from(all, offset + length, length);
        assert(chunk_of(all, offset, length) + from(all, offset + length) =~= from(all, offset));
    }
}

} // verus!
