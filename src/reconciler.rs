//! Removal of spent outputs from the live-cell table. An outpoint whose live
//! cell is not there yet is kept pending and retried in full drain passes; the
//! pending length that triggers a drain grows after each pass.

use vstd::prelude::*;
use crate::model::{OutPoint, OutPointView};
use crate::rows::{lemma_views_push, views, LiveCellRowView};
use crate::store::{count_key, key_matches, same_key, unique_keys, without_key, Tables};

verus! {

/// Pending length at which the first drain pass runs.
pub const DEFAULT_RETRY_THRESHOLD: usize = 5000;

/// Growth of the drain threshold after each pass.
pub const DEFAULT_THRESHOLD_STEP: usize = 1000;

/// One delete attempt for `op` against live cells `l` with pending list `p`:
/// resolved when exactly one row was deleted, else `op` joins the pending list.
pub open spec fn attempt(l: Seq<LiveCellRowView>, p: Seq<OutPointView>, op: OutPointView) -> (
    Seq<LiveCellRowView>,
    Seq<OutPointView>,
) {
    (without_key(l, op), if count_key(l, op) == 1 {
        p
    } else {
        p.push(op)
    })
}

/// A drain pass over `items`, in order, starting from live cells `l` and an
/// empty pending list: the live cells after it and the items still unresolved.
pub open spec fn drain(l: Seq<LiveCellRowView>, items: Seq<OutPointView>) -> (
    Seq<LiveCellRowView>,
    Seq<OutPointView>,
)
    decreases items.len(),
{
    if items.len() == 0 {
        (l, Seq::empty())
    } else {
        let prev = drain(l, items.drop_last());
        attempt(prev.0, prev.1, items.last())
    }
}

pub open spec fn grown(threshold: usize, step: usize) -> usize {
    if threshold + step <= usize::MAX {
        (threshold + step) as usize
    } else {
        usize::MAX
    }
}

pub struct Reconciler {
    /// Outpoints whose live cell was not found yet, in arrival order.
    pub pending: Vec<OutPoint>,
    /// Pending length at which the next drain pass runs.
    pub threshold: usize,
    /// Growth of `threshold` after each drain pass.
    pub step: usize,
}

impl Reconciler {
    pub open spec fn pending_view(&self) -> Seq<OutPointView> {
        views(self.pending@)
    }

    /// An empty reconciler with the default threshold and step.
    pub fn new() -> (r: Reconciler)
        ensures
            r.pending_view().len() == 0,
            r.threshold == DEFAULT_RETRY_THRESHOLD,
            r.step == DEFAULT_THRESHOLD_STEP,
    {
        Reconciler::with_threshold(DEFAULT_RETRY_THRESHOLD, DEFAULT_THRESHOLD_STEP)
    }

    pub fn with_threshold(threshold: usize, step: usize) -> (r: Reconciler)
        ensures
            r.pending_view().len() == 0,
            r.threshold == threshold,
            r.step == step,
    {
        Reconciler { pending: Vec::new(), threshold, step }
    }

    pub fn pending_count(&self) -> (r: usize)
        ensures
            r == self.pending_view().len(),
    {
        self.pending.len()
    }

    /// Records the outcome of one delete attempt for `op` that removed
    /// `affected` live cells: unless exactly one went, `op` joins the pending
    /// list. Returns whether the pending list has reached the threshold, in
    /// which case a drain pass is due.
    pub fn record_attempt(&mut self, op: OutPoint, affected: usize) -> (drain_due: bool)
        ensures
            final(self).pending_view() == if affected == 1 {
                old(self).pending_view()
            } else {
                old(self).pending_view().push(op@)
            },
            final(self).threshold == old(self).threshold,
            final(self).step == old(self).step,
            drain_due == (final(self).pending_view().len() >= final(self).threshold),
    {
        if affected != 1 {
            proof {
                lemma_views_push(self.pending@, op);
            }
            self.pending.push(op);
        }
        self.pending.len() >= self.threshold
    }

    /// Starts a drain pass: hands over every pending outpoint, in order, and
    /// leaves the pending list empty for the retries that fail again.
    pub fn start_drain(&mut self) -> (items: Vec<OutPoint>)
        ensures
            views(items@) == old(self).pending_view(),
            final(self).pending_view().len() == 0,
            final(self).threshold == old(self).threshold,
            final(self).step == old(self).step,
    {
        let mut items: Vec<OutPoint> = Vec::new();
        std::mem::swap(&mut items, &mut self.pending);
        assert(views(self.pending@) =~= Seq::<OutPointView>::empty());
        items
    }

    /// Ends a drain pass: the threshold grows by the step.
    pub fn end_drain(&mut self)
        ensures
            final(self).pending == old(self).pending,
            final(self).threshold == grown(old(self).threshold, old(self).step),
            final(self).step == old(self).step,
    {
        self.threshold = if self.threshold <= usize::MAX - self.step {
            self.threshold + self.step
        } else {
            usize::MAX
        };
    }

    /// Ends reconciliation and hands back the outpoints never resolved.
    pub fn finish(self) -> (r: Vec<OutPoint>)
        ensures
            views(r@) == self.pending_view(),
    {
        self.pending
    }
}

/// Handles one outpoint of the spent-output stream: an immediate delete
/// attempt, then a full drain pass once the pending list reaches the threshold.
pub fn handle_out_point(reconciler: &mut Reconciler, store: &mut Tables, out_point: OutPoint)
    ensures
        ({
            let first = attempt(
                views(old(store).live_cells@),
                old(reconciler).pending_view(),
                out_point@,
            );
            if first.1.len() >= old(reconciler).threshold {
                &&& (views(final(store).live_cells@), final(reconciler).pending_view()) == drain(
                    first.0,
                    first.1,
                )
                &&& final(reconciler).threshold == grown(
                    old(reconciler).threshold,
                    old(reconciler).step,
                )
            } else {
                &&& views(final(store).live_cells@) == first.0
                &&& final(reconciler).pending_view() == first.1
                &&& final(reconciler).threshold == old(reconciler).threshold
            }
        }),
        final(reconciler).step == old(reconciler).step,
        final(store).blocks == old(store).blocks,
        final(store).transactions == old(store).transactions,
        final(store).cells == old(store).cells,
        final(store).scripts == old(store).scripts,
        final(store).uncles == old(store).uncles,
        final(store).canonical == old(store).canonical,
{
    let ghost op = out_point@;
    let affected = store.delete_live_cell(&out_point.tx_hash, out_point.index);
    if reconciler.record_attempt(out_point, affected) {
        let items = reconciler.start_drain();
        let ghost its = views(items@);
        let ghost l0 = views(store.live_cells@);
        let ghost s0 = *store;
        let mut i: usize = 0;
        assert(its.take(0) =~= Seq::<OutPointView>::empty());
        while i < items.len()
            invariant
                its == views(items@),
                i <= its.len(),
                (views(store.live_cells@), reconciler.pending_view()) == drain(
                    l0,
                    its.take(i as int),
                ),
                reconciler.threshold == old(reconciler).threshold,
                reconciler.step == old(reconciler).step,
                store.blocks == s0.blocks,
                store.transactions == s0.transactions,
                store.cells == s0.cells,
                store.scripts == s0.scripts,
                store.uncles == s0.uncles,
                store.canonical == s0.canonical,
            decreases its.len() - i,
        {
            assert(its.take(i + 1).drop_last() =~= its.take(i as int));
            assert(its.take(i + 1).last() == items@[i as int]@);
            let item = &items[i];
            let affected = store.delete_live_cell(&item.tx_hash, item.index);
            reconciler.record_attempt(item.duplicate(), affected);
            i = i + 1;
        }
        assert(its.take(i as int) =~= its);
        reconciler.end_drain();
    }
}

proof fn lemma_count_without(l: Seq<LiveCellRowView>, a: OutPointView, b: OutPointView)
    ensures
        count_key(without_key(l, a), b) == if a == b {
            0
        } else {
            count_key(l, b)
        },
        count_key(without_key(l, a), b) <= count_key(l, b),
    decreases l.len(),
{
    if l.len() > 0 {
        lemma_count_without(l.drop_last(), a, b);
        let w = without_key(l.drop_last(), a);
        if !key_matches(l.last(), a) {
            assert(w.push(l.last()).drop_last() =~= w);
        }
    }
}

proof fn lemma_count_unique(l: Seq<LiveCellRowView>, op: OutPointView)
    requires
        unique_keys(l),
    ensures
        count_key(l, op) <= 1,
        count_key(l, op) == 1 ==> exists|i: int| 0 <= i < l.len() && #[trigger] key_matches(l[i], op),
    decreases l.len(),
{
    if l.len() > 0 {
        let p = l.drop_last();
        assert(unique_keys(p)) by {
            assert forall|i: int, j: int|
                0 <= i < p.len() && 0 <= j < p.len() && i != j implies !#[trigger] same_key(
                p[i],
                p[j],
            ) by {
                assert(p[i] == l[i] && p[j] == l[j]);
                assert(!same_key(l[i], l[j]));
            }
        }
        lemma_count_unique(p, op);
        if key_matches(l.last(), op) {
            assert(key_matches(l[l.len() - 1], op));
            if count_key(p, op) == 1 {
                let i = choose|i: int| 0 <= i < p.len() && #[trigger] key_matches(p[i], op);
                assert(p[i] == l[i]);
                assert(same_key(l[i], l[l.len() - 1]));
            }
        } else if count_key(p, op) == 1 {
            let i = choose|i: int| 0 <= i < p.len() && #[trigger] key_matches(p[i], op);
            assert(p[i] == l[i]);
        }
    }
}

/// Submitting an outpoint a second time deletes nothing more: the second
/// attempt finds no row and leaves the live cells as the first left them. Over
/// live cells with unique keys the two attempts delete at most one row.
pub proof fn lemma_resubmit_deletes_nothing(l: Seq<LiveCellRowView>, op: OutPointView)
    ensures
        count_key(without_key(l, op), op) == 0,
        without_key(without_key(l, op), op) == without_key(l, op),
        unique_keys(l) ==> count_key(l, op) + count_key(without_key(l, op), op) <= 1,
{
    lemma_count_without(l, op, op);
    lemma_without_idempotent(l, op);
    if unique_keys(l) {
        lemma_count_unique(l, op);
    }
}

proof fn lemma_without_idempotent(l: Seq<LiveCellRowView>, op: OutPointView)
    ensures
        without_key(without_key(l, op), op) == without_key(l, op),
    decreases l.len(),
{
    if l.len() > 0 {
        lemma_without_idempotent(l.drop_last(), op);
        let w = without_key(l.drop_last(), op);
        if !key_matches(l.last(), op) {
            assert(w.push(l.last()).drop_last() =~= w);
        }
    }
}

proof fn lemma_drain_keeps(l: Seq<LiveCellRowView>, items: Seq<OutPointView>, x: OutPointView)
    requires
        forall|j: int| 0 <= j < items.len() ==> items[j] != x,
    ensures
        count_key(drain(l, items).0, x) == count_key(l, x),
        !drain(l, items).1.contains(x),
    decreases items.len(),
{
    if items.len() > 0 {
        let p = items.drop_last();
        assert(forall|j: int| 0 <= j < p.len() ==> p[j] == items[j]);
        lemma_drain_keeps(l, p, x);
        let prev = drain(l, p);
        lemma_count_without(prev.0, items.last(), x);
        let y = items.last();
        assert(y == items[items.len() - 1]);
        if count_key(prev.0, y) != 1 {
            assert(!prev.1.push(y).contains(x)) by {
                if prev.1.push(y).contains(x) {
                    let k = choose|k: int| 0 <= k < prev.1.push(y).len() && prev.1.push(y)[k] == x;
                    if k < prev.1.len() {
                        assert(prev.1[k] == x);
                    }
                }
            }
        }
    }
}

/// An outpoint held pending, whose live cell has since been committed once, is
/// resolved by the next drain pass: it does not stay pending and its live cell
/// is gone, provided no other pending entry names the same outpoint.
pub proof fn lemma_drain_resolves(l: Seq<LiveCellRowView>, items: Seq<OutPointView>, k: int)
    requires
        0 <= k < items.len(),
        count_key(l, items[k]) == 1,
        forall|j: int| 0 <= j < items.len() && j != k ==> items[j] != items[k],
    ensures
        !drain(l, items).1.contains(items[k]),
        count_key(drain(l, items).0, items[k]) == 0,
    decreases items.len(),
{
    let x = items[k];
    let p = items.drop_last();
    let y = items.last();
    assert(y == items[items.len() - 1]);
    assert(forall|j: int| 0 <= j < p.len() ==> p[j] == items[j]);
    if k == items.len() - 1 {
        lemma_drain_keeps(l, p, x);
        let prev = drain(l, p);
        lemma_count_without(prev.0, x, x);
    } else {
        assert(p[k] == x);
        lemma_drain_resolves(l, p, k);
        let prev = drain(l, p);
        lemma_count_without(prev.0, y, x);
        assert(y != x);
        if count_key(prev.0, y) != 1 {
            assert(!prev.1.push(y).contains(x)) by {
                if prev.1.push(y).contains(x) {
                    let m = choose|m: int| 0 <= m < prev.1.push(y).len() && prev.1.push(y)[m] == x;
                    if m < prev.1.len() {
                        assert(prev.1[m] == x);
                    }
                }
            }
        }
    }
}

/// An outpoint is never lost: after one delete attempt it was either resolved
/// by deleting exactly one live cell, or it is the last pending entry.
pub proof fn lemma_attempt_keeps_unresolved(
    l: Seq<LiveCellRowView>,
    p: Seq<OutPointView>,
    op: OutPointView,
)
    ensures
        count_key(l, op) == 1 ==> attempt(l, p, op).1 == p && count_key(attempt(l, p, op).0, op)
            == 0,
        count_key(l, op) != 1 ==> attempt(l, p, op).1 == p.push(op),
{
    lemma_count_without(l, op, op);
}

} // verus!
