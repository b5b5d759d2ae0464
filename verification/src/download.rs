//! The ranged walk of a CT log's `get-entries` endpoint.
//!
//! The walk enforces exactly one rule beyond transport: forward progress.
//! It never reorders, never skips and never silently truncates; a server
//! that returns an empty batch is refused with `EmptyBatch` rather than
//! polled forever. [`download_range`] returns the record of the batches it
//! delivered, whose shape [`batches_cover`] pins down, and
//! [`lemma_batches_cover_exactly_once`] turns that shape into the coverage
//! statement: every walked index was delivered exactly once, in strictly
//! increasing order.

use vstd::prelude::*;

use crate::errors::Error;

verus! {

/// At most this many entries are asked for in one request.
pub const STEP_SIZE: u64 = 30;

/// One entry as the `get-entries` endpoint returns it: the two blobs
/// still in their base64 text form.
pub struct CtEntry {
    pub leaf_input: String,
    pub extra_data: String,
}

/// The transport a download drives: one `get-entries` request for the
/// inclusive index range `[start, end]`. The walk only ever asks for a
/// non-empty span of at most [`STEP_SIZE`] indices, which the method's
/// precondition records. A server may return fewer or more entries than
/// asked for, and nothing is assumed of an implementation here; the walk
/// is proved sound for every behaviour.
pub trait Fetch {
    fn fetch(&mut self, start: u64, end: u64) -> Result<Vec<CtEntry>, Error>
        requires
            start <= end,
            end - start < STEP_SIZE,
    ;
}

/// The sink a download feeds: one call per received batch, with the index
/// the batch starts at. An error aborts the walk.
pub trait Sink {
    fn on_batch(&mut self, batch_start: u64, entries: Vec<CtEntry>) -> Result<(), Error>;
}

/// The shape of a delivery record: one `(first index, count)` pair per
/// batch, consecutive from `start`, each batch non-empty, together
/// holding `total` entries.
pub open spec fn batches_cover(batches: Seq<(u64, u64)>, start: int, total: int) -> bool
    decreases batches.len(),
{
    if batches.len() == 0 {
        total == 0
    } else {
        &&& batches[0].0 == start
        &&& batches[0].1 > 0
        &&& batches_cover(batches.drop_first(), start + batches[0].1, total - batches[0].1)
    }
}

/// Whether index `idx` lies in batch `b`.
pub open spec fn in_batch(b: (u64, u64), idx: int) -> bool {
    b.0 <= idx < b.0 + b.1
}

/// Whether some batch of the record holds index `idx`.
pub open spec fn covered_by(batches: Seq<(u64, u64)>, idx: int) -> bool {
    exists|i: int| 0 <= i < batches.len() && in_batch(#[trigger] batches[i], idx)
}

/// Whether the record is a consecutive cover from `start` that reaches
/// `end` at least.
pub open spec fn covers_range(batches: Seq<(u64, u64)>, start: int, end: int) -> bool {
    exists|total: int|
        {
            &&& #[trigger] batches_cover(batches, start, total)
            &&& start + total >= end
        }
}

proof fn lemma_batches_cover_snoc(bs: Seq<(u64, u64)>, start: int, total: int, b: (u64, u64))
    requires
        batches_cover(bs, start, total),
        b.0 == start + total,
        b.1 > 0,
    ensures
        batches_cover(bs.push(b), start, total + b.1),
    decreases bs.len(),
{
    if bs.len() == 0 {
        assert(bs.push(b)[0] == b);
        assert(bs.push(b).drop_first() =~= Seq::<(u64, u64)>::empty());
        assert(batches_cover(Seq::<(u64, u64)>::empty(), start + b.1 as int, 0));
    } else {
        assert(bs.push(b)[0] == bs[0]);
        lemma_batches_cover_snoc(bs.drop_first(), start + bs[0].1, total - bs[0].1, b);
        assert(bs.push(b).drop_first() =~= bs.drop_first().push(b));
    }
}

/// Exactly-once coverage: of consecutive batches, every index in
/// `[start, start + total)` lies in some batch, every batch lies inside
/// that interval, and the batches are pairwise disjoint and strictly
/// increasing.
pub proof fn lemma_batches_cover_exactly_once(batches: Seq<(u64, u64)>, start: int, total: int)
    requires
        batches_cover(batches, start, total),
    ensures
        total >= 0,
        forall|i: int| 0 <= i < batches.len() ==> (#[trigger] batches[i]).1 > 0,
        forall|idx: int|
            start <= idx < start + total ==> #[trigger] covered_by(batches, idx),
        forall|i: int, idx: int|
            0 <= i < batches.len() && #[trigger] in_batch(batches[i], idx) ==> start <= idx
                < start + total,
        forall|i: int, j: int|
            #![trigger batches[i], batches[j]]
            0 <= i < j < batches.len() ==> batches[i].0 + batches[i].1 <= batches[j].0,
    decreases batches.len(),
{
    if batches.len() == 0 {
    } else {
        let b0 = batches[0];
        let rest = batches.drop_first();
        lemma_batches_cover_exactly_once(rest, start + b0.1, total - b0.1);
        assert forall|i: int| 0 <= i < batches.len() implies (#[trigger] batches[i]).1 > 0 by {
            if i > 0 {
                assert(rest[i - 1] == batches[i]);
            }
        }
        assert forall|idx: int| start <= idx < start + total implies #[trigger] covered_by(
            batches,
            idx,
        ) by {
            if idx < start + b0.1 {
                assert(in_batch(batches[0], idx));
            } else {
                assert(covered_by(rest, idx));
                let i = choose|i: int|
                    0 <= i < rest.len() && in_batch(#[trigger] rest[i], idx);
                assert(batches[i + 1] == rest[i]);
                assert(in_batch(batches[i + 1], idx));
            }
        }
        assert forall|i: int, idx: int|
            0 <= i < batches.len() && #[trigger] in_batch(batches[i], idx) implies start <= idx
            < start + total by {
            if i > 0 {
                assert(rest[i - 1] == batches[i]);
            }
        }
        assert forall|i: int, j: int|
            #![trigger batches[i], batches[j]]
            0 <= i < j < batches.len() implies batches[i].0 + batches[i].1 <= batches[j].0 by {
            if i == 0 {
                assert(rest[j - 1] == batches[j]);
                assert(rest[j - 1].1 > 0);
                assert(in_batch(rest[j - 1], rest[j - 1].0 as int));
            } else {
                assert(rest[i - 1] == batches[i]);
                assert(rest[j - 1] == batches[j]);
            }
        }
    }
}

/// The next request of a walk standing at `cur`: the inclusive index
/// range `[cur, min(end, cur + hint - 1)]` -- never empty, never more
/// than `hint` indices, never past `end`.
pub fn next_request(cur: u64, end: u64, hint: u64) -> (r: (u64, u64))
    requires
        cur < end,
        1 <= hint <= STEP_SIZE,
    ensures
        r.0 == cur,
        r.1 == if end - cur >= hint {
            cur + hint - 1
        } else {
            end as int
        },
        r.0 <= r.1 <= end,
        r.1 - r.0 < STEP_SIZE,
{
    if end - cur >= hint {
        (cur, cur + hint - 1)
    } else {
        (cur, end)
    }
}

/// One walk step after a batch of `count` entries arrived at `cur`: the
/// new cursor (what came is consumed, clamped at `end` so the walk
/// stops) and the next hint (the smaller of `STEP_SIZE` and what the
/// server chose to deliver).
pub fn download_step(cur: u64, end: u64, count: u64) -> (r: (u64, u64))
    requires
        cur < end,
        count >= 1,
    ensures
        r.0 == if count >= end - cur {
            end as int
        } else {
            cur + count
        },
        r.1 == if count >= STEP_SIZE {
            STEP_SIZE as int
        } else {
            count as int
        },
        cur < r.0 <= end,
        1 <= r.1 <= STEP_SIZE,
{
    let next_cur = if count >= end - cur {
        end
    } else {
        cur + count
    };
    let next_hint = if count >= STEP_SIZE {
        STEP_SIZE
    } else {
        count
    };
    (next_cur, next_hint)
}

/// Walks `[start, end]` (inclusive indices) in adaptive batches: at most
/// [`STEP_SIZE`] entries are asked for at once, shrinking to what the
/// server last chose to deliver. Each received batch goes to the sink
/// before anything else is checked; an empty batch then aborts with
/// `EmptyBatch` (the server makes no progress), and the walk otherwise
/// advances by however many entries came, also past `end`. The walk stops
/// once the next unseen index reaches `end`, so the boundary entry itself
/// arrives only inside an earlier batch and a strictly bounded range
/// behaves as `[start, end)`.
///
/// On success the returned record holds one `(batch start, count)` pair
/// per sink call, in call order: consecutive from `start`, each non-empty,
/// together reaching `end` at least. On `start == end` success is owed:
/// the walk ends before any request, with an empty record; an error can
/// only come out of a walk that had work to do.
pub fn download_range<F: Fetch, S: Sink>(
    fetch: &mut F,
    sink: &mut S,
    start: u64,
    end: u64,
) -> (r: Result<Vec<(u64, u64)>, Error>)
    requires
        start <= end,
    ensures
        r matches Ok(batches) ==> covers_range(batches@, start as int, end as int),
        start == end ==> (r matches Ok(batches) && batches@.len() == 0),
        r matches Err(e) ==> start < end,
{
    let mut cur = start;
    let mut batch_hint: u64 = if end - start >= STEP_SIZE {
        STEP_SIZE
    } else {
        end - start + 1
    };
    let mut record: Vec<(u64, u64)> = Vec::new();
    let ghost mut total: int = 0int;
    while cur < end
        invariant
            start <= cur <= end,
            1 <= batch_hint <= STEP_SIZE,
            batches_cover(record@, start as int, total),
            start + total >= cur,
            cur as int == start + total || cur == end,
            start == end ==> record@.len() == 0,
        decreases end - cur,
    {
        let (req_start, req_end) = next_request(cur, end, batch_hint);
        let entries = match fetch.fetch(req_start, req_end) {
            Ok(v) => v,
            Err(e) => {
                return Err(e);
            },
        };
        let count_us = entries.len();
        let count: u64 = count_us as u64;
        match sink.on_batch(cur, entries) {
            Ok(()) => {},
            Err(e) => {
                return Err(e);
            },
        }
        if count == 0 {
            return Err(Error::EmptyBatch);
        }
        let ghost rec0 = record@;
        record.push((cur, count));
        proof {
            lemma_batches_cover_snoc(rec0, start as int, total, (cur, count));
            assert(rec0.push((cur, count)) =~= record@);
            total = total + count as int;
        }
        let (next_cur, next_hint) = download_step(cur, end, count);
        batch_hint = next_hint;
        cur = next_cur;
    }
    proof {
        assert(covers_range(record@, start as int, end as int)) by {
            assert(batches_cover(record@, start as int, total) && start + total >= end);
        }
    }
    Ok(record)
}

} // verus!
