//! The return history log: an append-only sequence of audit records,
//! queryable per book identifier.

use vstd::prelude::*;

verus! {

/// One immutable audit record: a book identifier and the time at which
/// that book was returned. Entries are created exactly once per
/// successful return and never mutated or deleted.
#[derive(Clone, Copy, PartialEq, Eq, Structural, Debug)]
pub struct ReturnHistory {
    pub book_id: u64,
    pub returned_at: u64,
}

/// The return timestamps recorded for `id`, in insertion order.
pub open spec fn timestamps_for(h: Seq<ReturnHistory>, id: u64) -> Seq<u64>
    decreases h.len(),
{
    if h.len() == 0 {
        Seq::empty()
    } else {
        let rest = timestamps_for(h.drop_last(), id);
        if h.last().book_id == id {
            rest.push(h.last().returned_at)
        } else {
            rest
        }
    }
}

/// Law: appending one entry to the log appends exactly its timestamp at
/// the end of the returned book's history and leaves every other book's
/// history unchanged.
pub proof fn lemma_history_append(h: Seq<ReturnHistory>, e: ReturnHistory)
    ensures
        timestamps_for(h.push(e), e.book_id) =~= timestamps_for(h, e.book_id).push(e.returned_at),
        forall|x: u64| x != e.book_id ==> timestamps_for(h.push(e), x) =~= timestamps_for(h, x),
{
    assert(h.push(e).drop_last() =~= h);
    assert(h.push(e).last() == e);
    assert(h.push(e).len() == h.len() + 1);
}

/// Every timestamp a book's history holds is bounded by any bound on the
/// whole log's entries.
proof fn lemma_timestamps_bounded(h: Seq<ReturnHistory>, id: u64, bound: u64)
    requires
        forall|i: int| 0 <= i < h.len() ==> #[trigger] h[i].returned_at <= bound,
    ensures
        forall|k: int| 0 <= k < timestamps_for(h, id).len() ==> #[trigger] timestamps_for(h, id)[k] <= bound,
    decreases h.len(),
{
    if h.len() > 0 {
        let prefix = h.drop_last();
        assert forall|i: int| 0 <= i < prefix.len() implies #[trigger] prefix[i].returned_at <= bound by {
            assert(prefix[i] == h[i]);
        };
        lemma_timestamps_bounded(prefix, id, bound);
        let ts = timestamps_for(h, id);
        let rest = timestamps_for(prefix, id);
        if h.last().book_id == id {
            assert(ts == rest.push(h.last().returned_at));
            assert(h.last().returned_at <= bound);
            assert forall|k: int| 0 <= k < ts.len() implies #[trigger] ts[k] <= bound by {
                if k < rest.len() {
                    assert(ts[k] == rest[k]);
                } else {
                    assert(ts[k] == h.last().returned_at);
                }
            };
        } else {
            assert(ts == rest);
        }
    }
}

/// Law: when the log's entries carry non-decreasing timestamps (the clock
/// is monotonic), every book's recorded history is in chronological order.
pub proof fn lemma_history_chronological(h: Seq<ReturnHistory>, id: u64)
    requires
        forall|i: int, j: int| 0 <= i < j < h.len() ==> #[trigger] h[i].returned_at <= #[trigger] h[j].returned_at,
    ensures
        forall|i: int, j: int| 0 <= i < j < timestamps_for(h, id).len()
            ==> #[trigger] timestamps_for(h, id)[i] <= #[trigger] timestamps_for(h, id)[j],
    decreases h.len(),
{
    if h.len() > 0 {
        let prefix = h.drop_last();
        assert forall|i: int, j: int| 0 <= i < j < prefix.len()
            implies #[trigger] prefix[i].returned_at <= #[trigger] prefix[j].returned_at by {
            assert(prefix[i] == h[i]);
            assert(prefix[j] == h[j]);
        };
        lemma_history_chronological(prefix, id);
        let ts = timestamps_for(h, id);
        let rest = timestamps_for(prefix, id);
        if h.last().book_id == id {
            assert forall|i: int| 0 <= i < prefix.len()
                implies #[trigger] prefix[i].returned_at <= h.last().returned_at by {
                assert(prefix[i] == h[i]);
                assert(h[i].returned_at <= h[h.len() - 1].returned_at);
            };
            lemma_timestamps_bounded(prefix, id, h.last().returned_at);
            assert(ts == rest.push(h.last().returned_at));
            assert forall|i: int, j: int| 0 <= i < j < ts.len()
                implies #[trigger] ts[i] <= #[trigger] ts[j] by {
                if j < rest.len() {
                    assert(ts[i] == rest[i]);
                    assert(ts[j] == rest[j]);
                } else {
                    assert(ts[i] == rest[i]);
                    assert(ts[j] == h.last().returned_at);
                }
            };
        } else {
            assert(ts == rest);
        }
    }
}

} // verus!
