//! Which lines a stream sends, at its start and afterwards.

use vstd::prelude::*;

use crate::filter::{line_fits, FilterModel};
use crate::search::from;
use crate::tail::{
    ended_lines, finished_len, finished_lines, kept, last_of, line_bytes, lines_of, offset_after,
    offset_of_rounds, probe_of, sends, sent_in_rounds, span_behind, strip_return, tail_lines, Append,
};
use crate::tail::{law_follow, law_pieces_join};
use crate::text::{bytes_text, split, texts};
use crate::text_laws::law_split;

verus! {

/// What is sent of lines are those that meet the keyword, the level, the range of time and
/// the expression of the stream, all of them, each once and in order: `at` says at which
/// place each of them stands.
pub proof fn law_sent_lines(lines: Seq<Seq<char>>, f: FilterModel) -> (at: Seq<int>)
    ensures
        at.len() == kept(lines, f).len(),
        forall|k: int| 0 <= k < at.len() ==> 0 <= #[trigger] at[k] < lines.len(),
        forall|j: int, k: int| 0 <= j < k < at.len() ==> #[trigger] at[j] < #[trigger] at[k],
        forall|k: int|
            0 <= k < at.len() ==> {
                &&& #[trigger] kept(lines, f)[k] == lines[at[k]]
                &&& line_fits(kept(lines, f)[k], f.keyword, f.level, f.start, f.end, f.re)
            },
        forall|i: int|
            0 <= i < lines.len() && line_fits(
                #[trigger] lines[i],
                f.keyword,
                f.level,
                f.start,
                f.end,
                f.re,
            ) ==> at.contains(i),
    decreases lines.len(),
{
    if lines.len() == 0 {
        Seq::<int>::empty()
    } else {
        let front = lines.drop_last();
        let n = front.len() as int;
        let before = law_sent_lines(front, f);
        let l = lines.last();
        let at = if f.shows(l) {
            before.push(n)
        } else {
            before
        };
        assert forall|k: int| 0 <= k < at.len() implies {
            &&& #[trigger] kept(lines, f)[k] == lines[at[k]]
            &&& line_fits(kept(lines, f)[k], f.keyword, f.level, f.start, f.end, f.re)
        } by {
            if k < before.len() {
                assert(kept(lines, f)[k] == kept(front, f)[k]);
                assert(front[before[k]] == lines[before[k]]);
            }
        }
        assert forall|i: int|
            0 <= i < lines.len() && line_fits(
                #[trigger] lines[i],
                f.keyword,
                f.level,
                f.start,
                f.end,
                f.re,
            ) implies at.contains(i) by {
            if i < n {
                assert(front[i] == lines[i]);
                let k = choose|k: int| 0 <= k < before.len() && before[k] == i;
                assert(at[k] == i);
            } else {
                assert(at[at.len() - 1] == i);
            }
        }
        at
    }
}

/// What is sent of two pieces of a log is what is sent of the first and then what is sent
/// of the second.
pub proof fn law_sent_pieces(a: Seq<Seq<char>>, b: Seq<Seq<char>>, f: FilterModel)
    ensures
        kept(a + b, f) == kept(a, f) + kept(b, f),
    decreases b.len(),
{
    if b.len() == 0 {
        assert(a + b =~= a);
        assert(kept(a, f) + kept(b, f) =~= kept(a, f));
    } else {
        law_sent_pieces(a, b.drop_last(), f);
        assert((a + b).drop_last() =~= a + b.drop_last());
        assert((a + b).last() == b.last());
        assert(kept(a + b, f) =~= kept(a, f) + kept(b, f));
    }
}

/// A line alone is sent where it meets the keyword, the level, the range of time and the
/// expression of the stream.
pub proof fn law_sent_line(l: Seq<char>, f: FilterModel)
    ensures
        line_fits(l, f.keyword, f.level, f.start, f.end, f.re) ==> kept(seq![l], f) == seq![l],
        !line_fits(l, f.keyword, f.level, f.start, f.end, f.re) ==> kept(seq![l], f).len() == 0,
{
    let one = seq![l];
    assert(one.drop_last() =~= Seq::<Seq<char>>::empty());
    assert(kept(one.drop_last(), f) =~= Seq::<Seq<char>>::empty());
    if line_fits(l, f.keyword, f.level, f.start, f.end, f.re) {
        assert(kept(one, f) =~= one);
    }
}

/// At its start a stream sends the lines that meet its conditions among the last `n` of
/// the text, in order; where the text is cut off its first line is not among them. `at`
/// says at which place each line stands.
pub proof fn law_stream_start(text: Seq<char>, cut: bool, n: int, f: FilterModel) -> (at: Seq<int>)
    requires
        0 <= n,
    ensures
        at.len() == tail_lines(text, cut, n, f).len(),
        forall|j: int, k: int| 0 <= j < k < at.len() ==> #[trigger] at[j] < #[trigger] at[k],
        forall|k: int|
            0 <= k < at.len() ==> {
                &&& 0 <= #[trigger] at[k] < lines_of(text).len()
                &&& at[k] >= lines_of(text).len() - n
                &&& cut ==> at[k] >= 1
                &&& tail_lines(text, cut, n, f)[k] == lines_of(text)[at[k]]
                &&& line_fits(lines_of(text)[at[k]], f.keyword, f.level, f.start, f.end, f.re)
            },
        forall|i: int|
            0 <= i < lines_of(text).len() && lines_of(text).len() - n <= i && (cut ==> i >= 1)
                && line_fits(
                #[trigger] lines_of(text)[i],
                f.keyword,
                f.level,
                f.start,
                f.end,
                f.re,
            ) ==> at.contains(i),
{
    let all = lines_of(text);
    let whole = if cut {
        from(all, 1)
    } else {
        all
    };
    let used = last_of(whole, n);
    let first = all.len() - used.len();
    assert(used =~= all.skip(first));
    let places = law_sent_lines(used, f);
    let at = Seq::new(places.len(), |k: int| first + places[k]);
    assert forall|k: int| 0 <= k < at.len() implies {
        &&& 0 <= #[trigger] at[k] < lines_of(text).len()
        &&& at[k] >= lines_of(text).len() - n
        &&& cut ==> at[k] >= 1
        &&& tail_lines(text, cut, n, f)[k] == lines_of(text)[at[k]]
        &&& line_fits(lines_of(text)[at[k]], f.keyword, f.level, f.start, f.end, f.re)
    } by {
        assert(kept(used, f)[k] == used[places[k]]);
        assert(used[places[k]] == all[first + places[k]]);
    }
    assert forall|i: int|
        0 <= i < lines_of(text).len() && lines_of(text).len() - n <= i && (cut ==> i >= 1)
            && line_fits(
            #[trigger] lines_of(text)[i],
            f.keyword,
            f.level,
            f.start,
            f.end,
            f.re,
        ) implies at.contains(i) by {
        assert(i >= first);
        assert(used[i - first] == all[i]);
        assert(places.contains(i - first));
        let k = choose|k: int| 0 <= k < places.len() && places[k] == i - first;
        assert(at[k] == i);
    }
    at
}

/// Once all that was added behind `from` was read, in whatever rounds, the lines that were
/// sent are the finished ones that meet the conditions of the stream, all of them, each
/// once and in order. `at` says at which place each line stands.
pub proof fn law_stream_goes_on(data: Seq<u8>, start: int, ends: Seq<int>, f: FilterModel) -> (at:
    Seq<int>)
    requires
        0 <= start <= data.len(),
        ends.len() > 0,
        ends.last() == data.len(),
    ensures
        at.len() == sent_in_rounds(data, start, ends, f).len(),
        forall|j: int, k: int| 0 <= j < k < at.len() ==> #[trigger] at[j] < #[trigger] at[k],
        forall|k: int|
            0 <= k < at.len() ==> {
                let lines = finished_lines(data.skip(start));
                &&& 0 <= #[trigger] at[k] < lines.len()
                &&& sent_in_rounds(data, start, ends, f)[k] == lines[at[k]]
                &&& line_fits(lines[at[k]], f.keyword, f.level, f.start, f.end, f.re)
            },
        forall|i: int|
            0 <= i < finished_lines(data.skip(start)).len() && line_fits(
                #[trigger] finished_lines(data.skip(start))[i],
                f.keyword,
                f.level,
                f.start,
                f.end,
                f.re,
            ) ==> at.contains(i),
{
    law_follow(data, start, ends, f);
    let at = law_sent_lines(finished_lines(data.skip(start)), f);
    assert forall|k: int| 0 <= k < at.len() implies {
        let lines = finished_lines(data.skip(start));
        &&& 0 <= #[trigger] at[k] < lines.len()
        &&& sent_in_rounds(data, start, ends, f)[k] == lines[at[k]]
        &&& line_fits(lines[at[k]], f.keyword, f.level, f.start, f.end, f.re)
    } by {
        assert(kept(finished_lines(data.skip(start)), f)[k] == sent_in_rounds(
            data,
            start,
            ends,
            f,
        )[k]);
    }
    at
}

/// A round sends what meets the conditions of the stream among the finished lines that it
/// reads, and moves on behind the last of them.
pub proof fn law_round(data: Seq<u8>, at: int, end: int, f: FilterModel)
    requires
        0 <= at <= end <= data.len(),
    ensures
        sent_in_rounds(data, at, seq![end], f) == kept(finished_lines(data.subrange(at, end)), f),
        offset_of_rounds(data, at, seq![end]) == at + finished_len(data.subrange(at, end)),
{
    let one = seq![end];
    assert(one.drop_last() =~= Seq::<int>::empty());
    assert(sent_in_rounds(data, at, one.drop_last(), f) =~= Seq::<Seq<char>>::empty());
    assert(offset_of_rounds(data, at, one.drop_last()) == at);
    assert(sent_in_rounds(data, at, one, f) =~= kept(finished_lines(data.subrange(at, end)), f));
}

/// A line feed ends a line, and a carriage return before it is no part of the line. What
/// follows the last line feed is a line as it stands, unless it is empty.
pub proof fn law_lines(line: Seq<char>, rest: Seq<char>)
    requires
        !line.contains('\n'),
    ensures
        lines_of(line + seq!['\n'] + rest) == seq![
            if line.len() > 0 && line.last() == '\r' {
                line.drop_last()
            } else {
                line
            },
        ] + lines_of(rest),
        line.len() > 0 ==> lines_of(line) == seq![line],
        line.len() == 0 ==> lines_of(line).len() == 0,
{
    law_split(line, '\n', rest);
    let whole = split(line + seq!['\n'] + rest, '\n');
    let parts = split(rest, '\n');
    lemma_split_some(rest, '\n');
    assert(whole == seq![line] + parts);
    assert(whole.drop_last() =~= seq![line] + parts.drop_last());
    assert(whole.last() == parts.last());
    assert(ended_lines(line + seq!['\n'] + rest) =~= seq![strip_return(line)] + ended_lines(rest));
    assert(lines_of(line + seq!['\n'] + rest) =~= seq![strip_return(line)] + lines_of(rest));
    assert(seq![line].drop_last() =~= Seq::<Seq<char>>::empty());
    assert(ended_lines(line) =~= Seq::<Seq<char>>::empty());
    assert(lines_of(line) =~= if line.len() > 0 {
        seq![line]
    } else {
        Seq::<Seq<char>>::empty()
    });
}

proof fn lemma_split_some<T>(s: Seq<T>, sep: T)
    ensures
        split(s, sep).len() > 0,
    decreases s.len(),
{
    if s.len() > 0 {
        lemma_split_some(s.drop_last(), sep);
    }
}

/// A line is finished where a line feed follows, and a carriage return before that is no
/// part of it. Bytes without a line feed hold no finished line.
pub proof fn law_finished_line(line: Seq<u8>, rest: Seq<u8>)
    requires
        !line.contains(10),
    ensures
        finished_lines(line + seq![10u8] + rest) == seq![
            bytes_text(
                if line.len() > 0 && line.last() == 13 {
                    line.drop_last()
                } else {
                    line
                },
            ),
        ] + finished_lines(rest),
        finished_len(line + seq![10u8] + rest) == line.len() + 1 + finished_len(rest),
        finished_lines(line).len() == 0,
        finished_len(line) == 0,
{
    law_split(line, 10u8, rest);
    lemma_split_some(rest, 10u8);
    let whole = split(line + seq![10u8] + rest, 10u8);
    let parts = split(rest, 10u8);
    assert(whole == seq![line] + parts);
    assert(whole.drop_last() =~= seq![line] + parts.drop_last());
    assert(finished_lines(line + seq![10u8] + rest) =~= seq![bytes_text(line_bytes(line))]
        + finished_lines(rest));
    law_pieces_join(line + seq![10u8], rest);
    lemma_ends_here(line);
    lemma_no_feed(line);
}

proof fn lemma_ends_here(line: Seq<u8>)
    ensures
        finished_len(line + seq![10u8]) == line.len() + 1,
{
    assert((line + seq![10u8]).last() == 10u8);
}

proof fn lemma_no_feed(b: Seq<u8>)
    requires
        !b.contains(10),
    ensures
        finished_len(b) == 0,
    decreases b.len(),
{
    if b.len() > 0 {
        assert(b.contains(b[b.len() - 1]));
        let front = b.drop_last();
        assert forall|k: int| 0 <= k < front.len() implies front[k] != 10u8 by {
            assert(b.contains(b[k]));
        }
        lemma_no_feed(front);
    }
}

/// The last elements stand at the end, and are as many as were asked for, or all.
pub proof fn law_last<T>(front: Seq<T>, back: Seq<T>)
    ensures
        last_of(front + back, back.len() as int) == back,
        last_of(back, (front.len() + back.len()) as int) == back,
{
    let s = front + back;
    assert(last_of(s, back.len() as int) =~= back);
}

/// Lines are sent where there are any, all of them, and with them whether they replace
/// what was shown.
pub proof fn law_sends(append: Option<Append>, lines: Seq<Seq<char>>, reset: bool)
    requires
        sends(append, lines, reset),
    ensures
        append is None <==> lines.len() == 0,
        append is Some ==> append->0.reset == reset && append->0.lines@.len() == lines.len(),
        append is Some ==> forall|k: int|
            0 <= k < lines.len() ==> (#[trigger] append->0.lines@[k])@ == lines[k],
{
    if append is Some {
        assert forall|k: int| 0 <= k < lines.len() implies (#[trigger] append->0.lines@[k])@
            == lines[k] by {
            assert(texts(append->0.lines@)[k] == lines[k]);
        }
    }
}

/// For the last lines of a file all of it is read up to 262144 bytes, and nothing where no
/// lines are asked for.
pub proof fn law_probe(len: u64, last_n: u64)
    ensures
        last_n == 0 ==> probe_of(len, last_n) is None,
        last_n > 0 && len <= 262144 ==> probe_of(len, last_n) == Some(len),
        last_n > 0 && len > 262144 ==> probe_of(len, last_n) == Some(262144u64),
{
}

/// A file is read on where it was left. One that has become shorter is read from its
/// front, and one that cannot be read is not.
pub proof fn law_offset(offset: u64, len: u64)
    ensures
        offset_after(offset, None) is None,
        len >= offset ==> offset_after(offset, Some(len)) == Some(offset),
        len < offset ==> offset_after(offset, Some(len)) == Some(0u64),
{
}

/// All that was added is read, up to 1048576 bytes at a time.
pub proof fn law_span(offset: u64, len: u64)
    ensures
        span_behind(offset, None) is None,
        len <= offset ==> span_behind(offset, Some(len)) is None,
        len > offset && len - offset <= 1048576 ==> span_behind(offset, Some(len)) is Some
            && span_behind(offset, Some(len))->0 == len - offset,
        len > offset && len - offset > 1048576 ==> span_behind(offset, Some(len)) == Some(
            1048576u64,
        ),
{
}

} // verus!
