//! The runs of a range that no span covers.

use crate::error::{ErrorView, Result, ServerError};
use crate::range::ByteRange;
use crate::text::owned;
use vstd::prelude::*;

verus! {

/// The end of the uncovered run at `from`: the next covered position, or `end`.
pub open spec fn run_end(from: int, end: int, covered: spec_fn(int) -> bool) -> int
    decreases end - from,
{
    if from >= end || covered(from) {
        from
    } else {
        run_end(from + 1, end, covered)
    }
}

/// The longest runs of uncovered positions in `[from, end)`, in ascending order.
pub open spec fn runs(from: int, end: int, covered: spec_fn(int) -> bool) -> Seq<(int, int)>
    decreases end - from,
{
    if from >= end {
        Seq::empty()
    } else if covered(from) {
        runs(from + 1, end, covered)
    } else {
        let to = run_end(from, end, covered);
        if to <= from || to > end {
            Seq::empty()
        } else {
            seq![(from, to)] + runs(to, end, covered)
        }
    }
}

pub proof fn lemma_run_end(from: int, end: int, covered: spec_fn(int) -> bool)
    requires
        from <= end,
    ensures
        from <= run_end(from, end, covered) <= end,
        forall|p: int| from <= p < run_end(from, end, covered) ==> !#[trigger] covered(p),
        run_end(from, end, covered) < end ==> covered(run_end(from, end, covered)),
        from < end && !covered(from) ==> from < run_end(from, end, covered),
    decreases end - from,
{
    if from < end && !covered(from) {
        lemma_run_end(from + 1, end, covered);
    }
}

/// Covered positions add no run.
pub proof fn lemma_runs_covered(from: int, to: int, end: int, covered: spec_fn(int) -> bool)
    requires
        from <= to <= end,
        forall|p: int| from <= p < to ==> #[trigger] covered(p),
    ensures
        runs(from, end, covered) == runs(to, end, covered),
    decreases to - from,
{
    if from < to {
        assert(covered(from));
        lemma_runs_covered(from + 1, to, end, covered);
    }
}

/// Uncovered positions up to a covered one or the end make one run.
pub proof fn lemma_runs_open(from: int, to: int, end: int, covered: spec_fn(int) -> bool)
    requires
        from < to <= end,
        forall|p: int| from <= p < to ==> !#[trigger] covered(p),
        to < end ==> covered(to),
    ensures
        runs(from, end, covered) == seq![(from, to)] + runs(to, end, covered),
{
    lemma_run_end(from, end, covered);
    let reached = run_end(from, end, covered);
    if reached < to {
        assert(!covered(reached));
    }
    if reached > to {
        assert(!covered(to));
    }
    assert(!covered(from));
}

/// Non-empty runs in `[from, end)`, in ascending order and apart from each other.
pub open spec fn apart(list: Seq<(int, int)>, from: int, end: int) -> bool {
    &&& forall|i: int|
        0 <= i < list.len() ==> from <= (#[trigger] list[i]).0 && list[i].0 < list[i].1
            && list[i].1 <= end
    &&& forall|i: int, j: int|
        0 <= i < j < list.len() ==> (#[trigger] list[i]).1 < (#[trigger] list[j]).0
}

/// The runs lie in the range, apart from each other, and hold exactly the uncovered positions.
pub proof fn lemma_runs(from: int, end: int, covered: spec_fn(int) -> bool)
    requires
        from <= end,
    ensures
        apart(runs(from, end, covered), from, end),
        forall|p: int|
            from <= p < end ==> (!(#[trigger] covered(p)) <==> in_runs(
                runs(from, end, covered),
                p,
            )),
        runs(from, end, covered).len() > 0 ==> !covered(runs(from, end, covered)[0].0),
    decreases end - from,
{
    if from < end {
        let all = runs(from, end, covered);
        if covered(from) {
            lemma_runs(from + 1, end, covered);
            assert(all == runs(from + 1, end, covered));
            assert(apart(all, from, end));
            if in_runs(all, from) {
                let k = choose|k: int|
                    0 <= k < all.len() && (#[trigger] all[k]).0 <= from < all[k].1;
            }
        } else {
            lemma_run_end(from, end, covered);
            let to = run_end(from, end, covered);
            lemma_runs(to, end, covered);
            let rest = runs(to, end, covered);
            assert(all == seq![(from, to)] + rest);
            assert(forall|i: int| 1 <= i < all.len() ==> (#[trigger] all[i]) == rest[i - 1]);
            assert forall|i: int, j: int| 0 <= i < j < all.len() implies (#[trigger] all[i]).1 < (
            #[trigger] all[j]).0 by {
                if i == 0 {
                    if j > 1 {
                        assert(rest[0].1 < rest[j - 1].0);
                    }
                } else {
                    assert(rest[i - 1].1 < rest[j - 1].0);
                }
            }
            assert forall|p: int| from <= p < end implies (!(#[trigger] covered(p)) <==> in_runs(
                all,
                p,
            )) by {
                if p < to {
                    assert(all[0].0 <= p < all[0].1);
                } else {
                    if in_runs(rest, p) {
                        let k = choose|k: int|
                            0 <= k < rest.len() && (#[trigger] rest[k]).0 <= p < rest[k].1;
                        assert(all[k + 1] == rest[k]);
                    }
                    if in_runs(all, p) {
                        let k = choose|k: int|
                            0 <= k < all.len() && (#[trigger] all[k]).0 <= p < all[k].1;
                        assert(k > 0);
                        assert(rest[k - 1] == all[k]);
                    }
                }
            }
        }
    }
}

/// The positions that runs hold.
pub open spec fn run_bytes(list: Seq<(int, int)>) -> int
    decreases list.len(),
{
    if list.len() == 0 {
        0
    } else {
        run_bytes(list.drop_last()) + (list.last().1 - list.last().0)
    }
}

/// Runs that are apart hold no more positions than their range has.
pub proof fn lemma_run_bytes(list: Seq<(int, int)>, from: int, end: int)
    requires
        apart(list, from, end),
        from <= end,
    ensures
        0 <= run_bytes(list) <= end - from,
    decreases list.len(),
{
    if list.len() > 0 {
        let front = list.drop_last();
        let last = list.len() - 1;
        assert(forall|i: int| 0 <= i < front.len() ==> front[i] == list[i]);
        assert(from <= list[last].0 && list[last].1 <= end);
        assert forall|i: int| 0 <= i < front.len() implies (#[trigger] front[i]).1
            <= list[last].0 by {
            assert(list[i].1 < list[last].0);
        }
        lemma_run_bytes(front, from, list[last].0);
    }
}

/// Whether a run holds the position.
pub open spec fn in_runs(list: Seq<(int, int)>, position: int) -> bool {
    exists|i: int| 0 <= i < list.len() && (#[trigger] list[i]).0 <= position < list[i].1
}

/// A position in a run is not covered.
pub proof fn lemma_run_uncovered(
    from: int,
    end: int,
    covered: spec_fn(int) -> bool,
    index: int,
    position: int,
)
    requires
        from <= end,
        0 <= index < runs(from, end, covered).len(),
        runs(from, end, covered)[index].0 <= position < runs(from, end, covered)[index].1,
    ensures
        !covered(position),
        from <= position < end,
{
    lemma_runs(from, end, covered);
    assert(in_runs(runs(from, end, covered), position));
}

/// Coverings that agree on a range leave the same runs.
pub proof fn lemma_runs_same(
    from: int,
    end: int,
    first: spec_fn(int) -> bool,
    second: spec_fn(int) -> bool,
)
    requires
        forall|p: int| from <= p < end ==> #[trigger] first(p) == second(p),
    ensures
        runs(from, end, first) == runs(from, end, second),
        run_end(from, end, first) == run_end(from, end, second),
    decreases end - from,
{
    if from < end {
        assert(first(from) == second(from));
        lemma_runs_same(from + 1, end, first, second);
        if !first(from) {
            lemma_run_end(from, end, first);
            lemma_runs_same(run_end(from, end, first), end, first, second);
        }
    }
}

/// Whether one of the spans covers the position.
pub open spec fn spanned(spans: Seq<(u64, u64)>, position: int) -> bool {
    exists|i: int| 0 <= i < spans.len() && (#[trigger] spans[i]).0 <= position < spans[i].1
}

/// The bounds of ranges.
pub open spec fn bounds(ranges: Seq<ByteRange>) -> Seq<(int, int)> {
    ranges.map_values(|range: ByteRange| (range.first(), range.limit()))
}

/// No span is empty.
pub open spec fn are_spans(spans: Seq<(u64, u64)>) -> bool {
    forall|i: int| 0 <= i < spans.len() ==> (#[trigger] spans[i]).0 < spans[i].1
}

/// The spans are non-empty parts of `[start, end)`.
pub open spec fn within(spans: Seq<(u64, u64)>, start: int, end: int) -> bool {
    forall|i: int|
        0 <= i < spans.len() ==> start <= (#[trigger] spans[i]).0 && spans[i].0 < spans[i].1
            && spans[i].1 <= end
}

/// The least start of a span that starts at or after `end`, and `end` where none does.
pub open spec fn next_span(spans: Seq<(u64, u64)>, end: int) -> int
    decreases spans.len(),
{
    if spans.len() == 0 {
        end
    } else {
        let rest = next_span(spans.drop_last(), end);
        let start = spans.last().0 as int;
        if start >= end && (start < rest || !any_from(spans.drop_last(), end)) {
            start
        } else {
            rest
        }
    }
}

/// Whether a span starts at or after `end`.
pub open spec fn any_from(spans: Seq<(u64, u64)>, end: int) -> bool {
    exists|i: int| 0 <= i < spans.len() && (#[trigger] spans[i]).0 >= end
}

/// The runs, the last of which goes on to `next` where it reaches `end`.
pub open spec fn stretched(list: Seq<(int, int)>, end: int, next: int) -> Seq<(int, int)> {
    if list.len() > 0 && list.last().1 == end {
        list.drop_last().push((list.last().0, next))
    } else {
        list
    }
}

/// The next span is the one with the least start from `end` on.
proof fn lemma_next_span(spans: Seq<(u64, u64)>, end: int)
    ensures
        end <= next_span(spans, end),
        !any_from(spans, end) ==> next_span(spans, end) == end,
        any_from(spans, end) ==> exists|i: int|
            0 <= i < spans.len() && (#[trigger] spans[i]).0 == next_span(spans, end),
        forall|i: int|
            0 <= i < spans.len() && (#[trigger] spans[i]).0 >= end ==> next_span(spans, end)
                <= spans[i].0,
    decreases spans.len(),
{
    if spans.len() > 0 {
        let front = spans.drop_last();
        let last = spans.len() - 1;
        assert(forall|i: int| 0 <= i < front.len() ==> front[i] == spans[i]);
        assert(spans[last] == spans.last());
        lemma_next_span(front, end);
        if any_from(front, end) {
            let i = choose|i: int|
                0 <= i < front.len() && (#[trigger] front[i]).0 == next_span(front, end);
            let k = choose|k: int| 0 <= k < front.len() && (#[trigger] front[k]).0 >= end;
            assert(spans[k].0 >= end);
            assert(spans[i].0 == next_span(front, end));
        }
        assert forall|i: int| 0 <= i < spans.len() && (#[trigger] spans[i]).0 >= end implies next_span(
            spans,
            end,
        ) <= spans[i].0 by {
            if i < last {
                assert(front[i].0 >= end);
            }
        }
        if any_from(spans, end) && !any_from(front, end) {
            let k = choose|k: int| 0 <= k < spans.len() && (#[trigger] spans[k]).0 >= end;
            if k < last {
                assert(front[k].0 >= end);
            }
        }
    }
}

/// Where all spans lie in the range, no run goes on beyond it.
pub proof fn lemma_spans_within(spans: Seq<(u64, u64)>, start: int, end: int, list: Seq<(int, int)>)
    requires
        within(spans, start, end),
    ensures
        are_spans(spans),
        next_span(spans, end) == end,
        stretched(list, end, next_span(spans, end)) == list,
{
    lemma_next_span(spans, end);
    if any_from(spans, end) {
        let i = choose|i: int| 0 <= i < spans.len() && (#[trigger] spans[i]).0 >= end;
        assert(spans[i].1 <= end);
    }
    assert(stretched(list, end, end) =~= list);
}

/// The error for bounds that are no range.
pub open spec fn bounds_error(message: Seq<char>) -> ErrorView {
    ErrorView::Wal { context: "build byte range"@, message }
}

/// The range between two positions.
pub fn byte_range_from_bounds(start: u64, end: u64) -> (result: Result<ByteRange>)
    ensures
        match result {
            Ok(range) => start <= end && end - start <= u32::MAX && range.first() == start
                && range.limit() == end,
            Err(error) => if start > end {
                error@ == bounds_error("range end before start"@)
            } else {
                end - start > u32::MAX && error@ == bounds_error("range length does not fit u32"@)
            },
        },
{
    if end < start {
        return Err(ServerError::wal("build byte range", owned("range end before start")));
    }
    let length: u64 = end - start;
    if length > u32::MAX as u64 {
        return Err(ServerError::wal("build byte range", owned("range length does not fit u32")));
    }
    Ok(ByteRange::new(start, length as u32))
}

proof fn lemma_insert_spanned(spans: Seq<(u64, u64)>, place: int, span: (u64, u64), position: int)
    requires
        0 <= place <= spans.len(),
    ensures
        spanned(spans.insert(place, span), position) == (spanned(spans, position) || span.0
            <= position < span.1),
{
    let after = spans.insert(place, span);
    if spanned(spans, position) {
        let i = choose|i: int|
            0 <= i < spans.len() && (#[trigger] spans[i]).0 <= position < spans[i].1;
        let to = if i < place {
            i
        } else {
            i + 1
        };
        assert(after[to] == spans[i]);
    }
    if span.0 <= position < span.1 {
        assert(after[place] == span);
    }
    if spanned(after, position) {
        let i = choose|i: int|
            0 <= i < after.len() && (#[trigger] after[i]).0 <= position < after[i].1;
        if i != place {
            let from = if i < place {
                i
            } else {
                i - 1
            };
            assert(after[i] == spans[from]);
        }
    }
}

/// The spans ordered by their starts.
fn sorted_spans(spans: &Vec<(u64, u64)>) -> (sorted: Vec<(u64, u64)>)
    ensures
        forall|i: int, j: int|
            0 <= i < j < sorted@.len() ==> (#[trigger] sorted@[i]).0 <= (#[trigger] sorted@[j]).0,
        forall|p: int| #[trigger] spanned(sorted@, p) == spanned(spans@, p),
        forall|span: (u64, u64)| #[trigger] sorted@.contains(span) == spans@.contains(span),
{
    let mut sorted: Vec<(u64, u64)> = Vec::new();
    let mut index: usize = 0;
    while index < spans.len()
        invariant
            index <= spans@.len(),
            forall|i: int, j: int|
                0 <= i < j < sorted@.len() ==> (#[trigger] sorted@[i]).0 <= (
                #[trigger] sorted@[j]).0,
            forall|p: int| #[trigger]
                spanned(sorted@, p) == spanned(spans@.take(index as int), p),
            forall|span: (u64, u64)| #[trigger]
                sorted@.contains(span) == spans@.take(index as int).contains(span),
        decreases spans@.len() - index,
    {
        let span = spans[index];
        let ghost before = sorted@;
        let mut place: usize = sorted.len();
        while place > 0 && sorted[place - 1].0 > span.0
            invariant
                place <= sorted@.len(),
                forall|i: int| place <= i < sorted@.len() ==> (#[trigger] sorted@[i]).0 > span.0,
            decreases place,
        {
            place = place - 1;
        }
        sorted.insert(place, span);
        proof {
            assert forall|i: int, j: int| 0 <= i < j < sorted@.len() implies (
            #[trigger] sorted@[i]).0 <= (#[trigger] sorted@[j]).0 by {
                if i < place && j == place {
                    if i < place - 1 {
                        assert(before[i].0 <= before[place - 1].0);
                    }
                }
            }
            assert forall|p: int| #[trigger]
                spanned(sorted@, p) == spanned(spans@.take(index + 1), p) by {
                lemma_insert_spanned(before, place as int, span, p);
                lemma_insert_spanned(spans@.take(index as int), index as int, span, p);
                assert(spans@.take(index + 1) =~= spans@.take(index as int).insert(
                    index as int,
                    span,
                ));
            }
            assert forall|other: (u64, u64)| #[trigger] sorted@.contains(other) == spans@.take(
                index + 1,
            ).contains(other) by {
                let shorter = spans@.take(index as int);
                let longer = spans@.take(index + 1);
                assert(longer =~= shorter.push(span));
                if sorted@.contains(other) {
                    let i = choose|i: int| 0 <= i < sorted@.len() && sorted@[i] == other;
                    if i == place {
                        assert(longer[index as int] == other);
                    } else {
                        let from = if i < place {
                            i
                        } else {
                            i - 1
                        };
                        assert(before[from] == other);
                        assert(before.contains(other));
                        let k = choose|k: int| 0 <= k < shorter.len() && shorter[k] == other;
                        assert(longer[k] == other);
                    }
                }
                if longer.contains(other) {
                    let k = choose|k: int| 0 <= k < longer.len() && longer[k] == other;
                    if k == index {
                        assert(sorted@[place as int] == other);
                    } else {
                        assert(shorter[k] == other);
                        assert(before.contains(other));
                        let i = choose|i: int| 0 <= i < before.len() && before[i] == other;
                        let to = if i < place {
                            i
                        } else {
                            i + 1
                        };
                        assert(sorted@[to] == other);
                    }
                }
            }
        }
        index = index + 1;
    }
    proof {
        assert(spans@.take(index as int) =~= spans@);
    }
    sorted
}

/// The first of the ordered spans that starts at or after `end` is the next one.
proof fn lemma_first_behind(
    sorted: Seq<(u64, u64)>,
    spans: Seq<(u64, u64)>,
    index: int,
    end: int,
)
    requires
        0 <= index < sorted.len(),
        sorted[index].0 >= end,
        forall|i: int| 0 <= i < index ==> (#[trigger] sorted[i]).0 < end,
        forall|i: int, j: int|
            0 <= i < j < sorted.len() ==> (#[trigger] sorted[i]).0 <= (#[trigger] sorted[j]).0,
        forall|span: (u64, u64)| #[trigger] sorted.contains(span) == spans.contains(span),
    ensures
        next_span(spans, end) == sorted[index].0,
{
    lemma_next_span(spans, end);
    assert(sorted.contains(sorted[index]));
    let k = choose|k: int| 0 <= k < spans.len() && spans[k] == sorted[index];
    assert(spans[k].0 >= end);
    assert(any_from(spans, end));
    let i = choose|i: int| 0 <= i < spans.len() && (#[trigger] spans[i]).0 == next_span(spans, end);
    assert(spans.contains(spans[i]));
    assert(sorted.contains(spans[i]));
    let j = choose|j: int| 0 <= j < sorted.len() && sorted[j] == spans[i];
    if j > index {
        assert(sorted[index].0 <= sorted[j].0);
    }
}

/// Where every ordered span starts before `end`, there is no next one.
proof fn lemma_none_behind(sorted: Seq<(u64, u64)>, spans: Seq<(u64, u64)>, end: int)
    requires
        forall|i: int| 0 <= i < sorted.len() ==> (#[trigger] sorted[i]).0 < end,
        forall|span: (u64, u64)| #[trigger] sorted.contains(span) == spans.contains(span),
    ensures
        next_span(spans, end) == end,
{
    lemma_next_span(spans, end);
    if any_from(spans, end) {
        let i = choose|i: int| 0 <= i < spans.len() && (#[trigger] spans[i]).0 >= end;
        assert(spans.contains(spans[i]));
        assert(sorted.contains(spans[i]));
    }
}

/// Behind the spans that came so far, nothing is covered up to `end`.
proof fn lemma_open_tail(
    sorted: Seq<(u64, u64)>,
    spans: Seq<(u64, u64)>,
    index: int,
    cursor: int,
    end: int,
)
    requires
        0 <= index <= sorted.len(),
        cursor < end,
        forall|i: int| 0 <= i < index ==> (#[trigger] sorted[i]).1 <= cursor,
        forall|i: int| index <= i < sorted.len() ==> (#[trigger] sorted[i]).0 >= end,
        forall|p: int| #[trigger] spanned(sorted, p) == spanned(spans, p),
    ensures
        runs(cursor, end, |p: int| spanned(spans, p)) == seq![(cursor, end)],
{
    let covered = |p: int| spanned(spans, p);
    assert forall|p: int| cursor <= p < end implies !#[trigger] covered(p) by {
        if spanned(sorted, p) {
            let i = choose|i: int|
                0 <= i < sorted.len() && (#[trigger] sorted[i]).0 <= p < sorted[i].1;
        }
    }
    lemma_runs_open(cursor, end, end, covered);
}

/// The runs of a range that no span covers, in ascending order. Spans are clipped to the range, but
/// for the start of a span behind it: a last run that reaches the end of the range goes on to it.
pub fn gaps_in_range(range: ByteRange, spans: &Vec<(u64, u64)>) -> (result: Result<Vec<ByteRange>>)
    requires
        are_spans(spans@),
    ensures
        ({
            let end = range.saturated_limit();
            let next = next_span(spans@, end);
            let list = stretched(
                runs(range.first(), end, |p: int| spanned(spans@, p)),
                end,
                next,
            );
            match result {
                Ok(gaps) => bounds(gaps@) == list && (list.len() > 0 ==> list.last().1
                    - list.last().0 <= u32::MAX),
                Err(error) => {
                    &&& list.len() > 0
                    &&& list.last().1 - list.last().0 > u32::MAX
                    &&& error@ == bounds_error("range length does not fit u32"@)
                },
            }
        }),
{
    let start: u64 = range.start();
    let end: u64 = range.end();
    let ghost covered = |p: int| spanned(spans@, p);
    let ghost next = next_span(spans@, end as int);
    let ghost all = runs(start as int, end as int, covered);
    let sorted = sorted_spans(spans);
    let mut gaps: Vec<ByteRange> = Vec::new();
    let mut cursor: u64 = start;
    let mut index: usize = 0;
    proof {
        range.lemma_bounds(range);
        assert(bounds(gaps@) =~= Seq::<(int, int)>::empty());
        assert forall|i: int| 0 <= i < sorted@.len() implies (#[trigger] sorted@[i]).0
            < sorted@[i].1 by {
            assert(sorted@.contains(sorted@[i]));
            let k = choose|k: int| 0 <= k < spans@.len() && spans@[k] == sorted@[i];
            assert(spans@[k].0 < spans@[k].1);
        }
        lemma_runs(start as int, end as int, covered);
    }
    while index < sorted.len()
        invariant
            index <= sorted@.len(),
            start <= cursor <= end,
            end - start <= u32::MAX,
            covered == (|p: int| spanned(spans@, p)),
            next == next_span(spans@, end as int),
            start == range.first(),
            end == range.saturated_limit(),
            all == runs(start as int, end as int, covered),
            forall|i: int| 0 <= i < sorted@.len() ==> (#[trigger] sorted@[i]).0 < sorted@[i].1,
            forall|i: int, j: int|
                0 <= i < j < sorted@.len() ==> (#[trigger] sorted@[i]).0 <= (
                #[trigger] sorted@[j]).0,
            forall|p: int| #[trigger] spanned(sorted@, p) == spanned(spans@, p),
            forall|span: (u64, u64)| #[trigger] sorted@.contains(span) == spans@.contains(span),
            forall|i: int|
                0 <= i < index ==> (#[trigger] sorted@[i]).0 < end && (sorted@[i].1 <= cursor
                    || cursor == end),
            forall|i: int|
                0 <= i < gaps@.len() ==> start <= (#[trigger] bounds(gaps@)[i]).0
                    && bounds(gaps@)[i].1 < end,
            all == bounds(gaps@) + runs(cursor as int, end as int, covered),
        decreases sorted@.len() - index,
    {
        let (span_start, span_end) = sorted[index];
        proof {
            assert(sorted@[index as int] == (span_start, span_end));
        }
        if span_start >= end {
            if cursor == end {
                proof {
                    assert(all =~= bounds(gaps@));
                }
                return Ok(gaps);
            }
            proof {
                lemma_first_behind(sorted@, spans@, index as int, end as int);
                lemma_open_tail(sorted@, spans@, index as int, cursor as int, end as int);
                assert(stretched(all, end as int, next) =~= bounds(gaps@).push(
                    (cursor as int, span_start as int),
                ));
            }
            let gap = match byte_range_from_bounds(cursor, span_start) {
                Ok(gap) => gap,
                Err(error) => {
                    return Err(error);
                },
            };
            let ghost listed = gaps@;
            gaps.push(gap);
            proof {
                assert(bounds(gaps@) =~= bounds(listed).push((cursor as int, span_start as int)));
            }
            return Ok(gaps);
        }
        let clipped: u64 = if span_end < end {
            span_end
        } else {
            end
        };
        if clipped > cursor {
            let ghost reached = if span_start > cursor {
                span_start as int
            } else {
                cursor as int
            };
            if span_start > cursor {
                proof {
                    assert forall|p: int| cursor <= p < span_start implies !#[trigger] covered(
                        p,
                    ) by {
                        if spanned(sorted@, p) {
                            let i = choose|i: int|
                                0 <= i < sorted@.len() && (#[trigger] sorted@[i]).0 <= p
                                    < sorted@[i].1;
                            if i > index {
                                assert(sorted@[index as int].0 <= sorted@[i].0);
                            }
                        }
                    }
                    assert(spanned(sorted@, span_start as int));
                    assert(covered(span_start as int));
                    lemma_runs_open(cursor as int, span_start as int, end as int, covered);
                }
                let gap = match byte_range_from_bounds(cursor, span_start) {
                    Ok(gap) => gap,
                    Err(error) => {
                        return Err(error);
                    },
                };
                let ghost listed = gaps@;
                gaps.push(gap);
                proof {
                    assert(bounds(gaps@) =~= bounds(listed).push(
                        (cursor as int, span_start as int),
                    ));
                    assert(all =~= bounds(gaps@) + runs(span_start as int, end as int, covered));
                }
            }
            proof {
                assert forall|p: int| reached <= p < clipped implies #[trigger] covered(p) by {
                    assert(spanned(sorted@, p));
                }
                lemma_runs_covered(reached, clipped as int, end as int, covered);
            }
            cursor = clipped;
        }
        index = index + 1;
    }
    proof {
        lemma_none_behind(sorted@, spans@, end as int);
    }
    if cursor < end {
        proof {
            lemma_open_tail(sorted@, spans@, index as int, cursor as int, end as int);
        }
        let gap = match byte_range_from_bounds(cursor, end) {
            Ok(gap) => gap,
            Err(error) => {
                return Err(error);
            },
        };
        let ghost listed = gaps@;
        gaps.push(gap);
        proof {
            assert(bounds(gaps@) =~= bounds(listed).push((cursor as int, end as int)));
        }
    }
    proof {
        assert(all =~= bounds(gaps@));
        assert(stretched(all, end as int, next) =~= all);
    }
    Ok(gaps)
}

/// The gaps of a range in which all spans lie are exactly its positions that no span holds.
pub proof fn law_gaps_are_what_the_spans_leave(
    range: ByteRange,
    spans: Seq<(u64, u64)>,
    position: int,
)
    requires
        within(spans, range.first(), range.saturated_limit()),
    ensures
        ({
            let end = range.saturated_limit();
            let list = stretched(
                runs(range.first(), end, |p: int| spanned(spans, p)),
                end,
                next_span(spans, end),
            );
            in_runs(list, position) <==> range.first() <= position < end && !spanned(spans, position)
        }),
{
    let first = range.first();
    let end = range.saturated_limit();
    let held = |p: int| spanned(spans, p);
    let list = runs(first, end, held);
    range.lemma_bounds(range);
    lemma_spans_within(spans, first, end, list);
    lemma_runs(first, end, held);
    assert(held(position) == spanned(spans, position));
}

} // verus!
