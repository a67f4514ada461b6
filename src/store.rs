//! An in-memory relational store: one table per row kind, chunk commits that
//! append whole batches, and the conditional delete of live cells.

use vstd::prelude::*;
use crate::model::{bytes_eq, OutPointView, Script, ScriptView};
use crate::projection::{copy_live_cell, ChunkBatch};
use crate::rows::{
    views, BlockRow, BlockRowView, CanonicalRow, CanonicalRowView, CellRow, LiveCellRow,
    LiveCellRowView, TransactionRow, UncleRow,
};

verus! {

/// `r` is the live cell that outpoint `op` refers to.
pub open spec fn key_matches(r: LiveCellRowView, op: OutPointView) -> bool {
    r.tx_hash == op.tx_hash && r.output_index == op.index as nat
}

/// No height occurs twice in `s`.
pub open spec fn distinct(s: Seq<u64>) -> bool {
    forall|i: int, j: int| 0 <= i < s.len() && 0 <= j < s.len() && i != j ==> s[i] != s[j]
}

/// The heights of block rows `t`, in order.
pub open spec fn block_heights(t: Seq<BlockRowView>) -> Seq<u64> {
    Seq::new(t.len(), |i: int| t[i].number)
}

/// The heights of canonical-chain rows `t`, in order.
pub open spec fn canonical_heights(t: Seq<CanonicalRowView>) -> Seq<u64> {
    Seq::new(t.len(), |i: int| t[i].block_number)
}

/// `a` and `b` carry the same outpoint key.
pub open spec fn same_key(a: LiveCellRowView, b: LiveCellRowView) -> bool {
    a.tx_hash == b.tx_hash && a.output_index == b.output_index
}

/// No two live cells share an outpoint key.
pub open spec fn unique_keys(l: Seq<LiveCellRowView>) -> bool {
    forall|i: int, j: int|
        0 <= i < l.len() && 0 <= j < l.len() && i != j ==> !#[trigger] same_key(l[i], l[j])
}

/// Every row left by `without_key` is a row of `l`, and unique keys stay unique.
pub proof fn lemma_without_unique(l: Seq<LiveCellRowView>, op: OutPointView)
    ensures
        forall|k: int|
            0 <= k < without_key(l, op).len() ==> l.contains(#[trigger] without_key(l, op)[k]),
        unique_keys(l) ==> unique_keys(without_key(l, op)),
    decreases l.len(),
{
    if l.len() > 0 {
        let p = l.drop_last();
        lemma_without_unique(p, op);
        let w = without_key(p, op);
        assert forall|k: int| 0 <= k < w.len() implies l.contains(#[trigger] w[k]) by {
            let m = choose|m: int| 0 <= m < p.len() && p[m] == w[k];
            assert(l[m] == p[m]);
        }
        if unique_keys(l) {
            assert(unique_keys(p)) by {
                assert forall|i: int, j: int|
                    0 <= i < p.len() && 0 <= j < p.len() && i != j implies !#[trigger] same_key(
                    p[i],
                    p[j],
                ) by {
                    assert(p[i] == l[i] && p[j] == l[j]);
                    assert(!same_key(l[i], l[j]));
                }
            }
        }
        if !key_matches(l.last(), op) {
            let w2 = w.push(l.last());
            assert(w2.len() == w.len() + 1);
            assert forall|k: int| 0 <= k < w2.len() implies l.contains(#[trigger] w2[k]) by {
                if k < w.len() {
                    assert(w2[k] == w[k]);
                } else {
                    assert(l[l.len() - 1] == w2[k]);
                }
            }
            if unique_keys(l) {
                assert forall|i: int, j: int|
                    0 <= i < w2.len() && 0 <= j < w2.len() && i != j implies !#[trigger] same_key(
                    w2[i],
                    w2[j],
                ) by {
                    if i < w.len() && j < w.len() {
                        assert(w2[i] == w[i] && w2[j] == w[j]);
                        assert(!same_key(w[i], w[j]));
                    } else if i < w.len() {
                        let m = choose|m: int| 0 <= m < p.len() && p[m] == w[i];
                        assert(l[m] == w2[i]);
                        assert(w2[j] == l[l.len() - 1]);
                        assert(!same_key(l[m], l[l.len() - 1]));
                    } else if j < w.len() {
                        let m = choose|m: int| 0 <= m < p.len() && p[m] == w[j];
                        assert(l[m] == w2[j]);
                        assert(w2[i] == l[l.len() - 1]);
                        assert(!same_key(l[l.len() - 1], l[m]));
                    }
                }
            }
        }
    }
}

/// `l` with every row that `op` refers to removed, order kept.
pub open spec fn without_key(l: Seq<LiveCellRowView>, op: OutPointView) -> Seq<LiveCellRowView>
    decreases l.len(),
{
    if l.len() == 0 {
        l
    } else if key_matches(l.last(), op) {
        without_key(l.drop_last(), op)
    } else {
        without_key(l.drop_last(), op).push(l.last())
    }
}

/// How many rows of `l` outpoint `op` refers to.
pub open spec fn count_key(l: Seq<LiveCellRowView>, op: OutPointView) -> nat
    decreases l.len(),
{
    if l.len() == 0 {
        0
    } else {
        count_key(l.drop_last(), op) + if key_matches(l.last(), op) {
            1nat
        } else {
            0nat
        }
    }
}

pub struct Tables {
    pub blocks: Vec<BlockRow>,
    pub transactions: Vec<TransactionRow>,
    pub cells: Vec<CellRow>,
    pub live_cells: Vec<LiveCellRow>,
    pub scripts: Vec<Script>,
    pub uncles: Vec<UncleRow>,
    pub canonical: Vec<CanonicalRow>,
}

impl Tables {
    /// The script table holds each script content at most once, no two live
    /// cells share an outpoint key, no height has two block rows, and the
    /// canonical chain has one row per block row, height for height.
    pub open spec fn wf(&self) -> bool {
        &&& views(self.scripts@).no_duplicates()
        &&& unique_keys(views(self.live_cells@))
        &&& distinct(block_heights(views(self.blocks@)))
        &&& canonical_heights(views(self.canonical@)) == block_heights(views(self.blocks@))
    }

    pub fn new() -> (r: Tables)
        ensures
            r.wf(),
            r.blocks@.len() == 0,
            r.transactions@.len() == 0,
            r.cells@.len() == 0,
            r.live_cells@.len() == 0,
            r.scripts@.len() == 0,
            r.uncles@.len() == 0,
            r.canonical@.len() == 0,
    {
        let r = Tables {
            blocks: Vec::new(),
            transactions: Vec::new(),
            cells: Vec::new(),
            live_cells: Vec::new(),
            scripts: Vec::new(),
            uncles: Vec::new(),
            canonical: Vec::new(),
        };
        assert(views(r.scripts@) =~= Seq::<ScriptView>::empty());
        assert(views(r.live_cells@) =~= Seq::<LiveCellRowView>::empty());
        assert(block_heights(views(r.blocks@)) =~= Seq::<u64>::empty());
        assert(canonical_heights(views(r.canonical@)) =~= Seq::<u64>::empty());
        r
    }

    /// Writes every row of `batch`. Scripts already stored are not written again.
    pub fn commit(&mut self, batch: ChunkBatch)
        requires
            old(self).wf(),
            unique_keys(views(old(self).live_cells@) + views(batch.live_cells@)),
            distinct(block_heights(views(old(self).blocks@)) + block_heights(views(batch.blocks@))),
            canonical_heights(views(batch.canonical@)) == block_heights(views(batch.blocks@)),
        ensures
            final(self).wf(),
            views(final(self).blocks@) == views(old(self).blocks@) + views(batch.blocks@),
            views(final(self).transactions@) == views(old(self).transactions@) + views(
                batch.transactions@,
            ),
            views(final(self).cells@) == views(old(self).cells@) + views(batch.cells@),
            views(final(self).live_cells@) == views(old(self).live_cells@) + views(
                batch.live_cells@,
            ),
            views(final(self).uncles@) == views(old(self).uncles@) + views(batch.uncles@),
            views(final(self).canonical@) == views(old(self).canonical@) + views(batch.canonical@),
            forall|x: ScriptView| #[trigger]
                views(final(self).scripts@).contains(x) <==> (views(old(self).scripts@).contains(x)
                    || views(batch.scripts@).contains(x)),
    {
        let mut batch = batch;
        let ghost b0 = batch;
        append_rows(&mut self.blocks, &mut batch.blocks);
        append_rows(&mut self.transactions, &mut batch.transactions);
        append_rows(&mut self.cells, &mut batch.cells);
        append_rows(&mut self.live_cells, &mut batch.live_cells);
        append_rows(&mut self.uncles, &mut batch.uncles);
        append_rows(&mut self.canonical, &mut batch.canonical);
        proof {
            let ob = views(old(self).blocks@);
            let bb = views(b0.blocks@);
            assert(block_heights(ob + bb) =~= block_heights(ob) + block_heights(bb));
            let oc = views(old(self).canonical@);
            let bc = views(b0.canonical@);
            assert(canonical_heights(oc + bc) =~= canonical_heights(oc) + canonical_heights(bc));
        }
        let ghost s0 = views(self.scripts@);
        let ghost mid = *self;
        let mut i: usize = 0;
        while i < batch.scripts.len()
            invariant
                batch.scripts == b0.scripts,
                self.blocks == mid.blocks,
                self.transactions == mid.transactions,
                self.cells == mid.cells,
                self.live_cells == mid.live_cells,
                self.uncles == mid.uncles,
                self.canonical == mid.canonical,
                i <= batch.scripts@.len(),
                views(self.scripts@).no_duplicates(),
                forall|x: ScriptView| #[trigger]
                    views(self.scripts@).contains(x) <==> (s0.contains(x) || views(
                        batch.scripts@,
                    ).take(i as int).contains(x)),
            decreases batch.scripts@.len() - i,
        {
            crate::projection::insert_script(&mut self.scripts, &batch.scripts[i]);
            proof {
                let t = views(batch.scripts@);
                assert forall|x: ScriptView|
                    #[trigger] t.take(i + 1).contains(x) <==> (t.take(i as int).contains(x) || x
                        == t[i as int]) by {
                    if t.take(i + 1).contains(x) {
                        let j = choose|j: int| 0 <= j < i + 1 && #[trigger] t.take(i + 1)[j] == x;
                        if j < i {
                            assert(t.take(i as int)[j] == x);
                        }
                    }
                    if t.take(i as int).contains(x) {
                        let j = choose|j: int| 0 <= j < i && #[trigger] t.take(i as int)[j] == x;
                        assert(t.take(i + 1)[j] == x);
                    }
                    if x == t[i as int] {
                        assert(t.take(i + 1)[i as int] == x);
                    }
                }
            }
            i = i + 1;
        }
        assert(views(batch.scripts@).take(i as int) =~= views(batch.scripts@));
    }

    /// Deletes every live cell that `tx_hash`/`index` refers to and returns how
    /// many rows it deleted.
    pub fn delete_live_cell(&mut self, tx_hash: &Vec<u8>, index: u32) -> (removed: usize)
        ensures
            old(self).wf() ==> final(self).wf(),
            views(final(self).live_cells@) == without_key(
                views(old(self).live_cells@),
                OutPointView { tx_hash: tx_hash@, index },
            ),
            removed as nat == count_key(
                views(old(self).live_cells@),
                OutPointView { tx_hash: tx_hash@, index },
            ),
            final(self).blocks == old(self).blocks,
            final(self).transactions == old(self).transactions,
            final(self).cells == old(self).cells,
            final(self).scripts == old(self).scripts,
            final(self).uncles == old(self).uncles,
            final(self).canonical == old(self).canonical,
    {
        let ghost op = OutPointView { tx_hash: tx_hash@, index };
        let ghost l = views(self.live_cells@);
        let mut kept: Vec<LiveCellRow> = Vec::new();
        let mut removed: usize = 0;
        let mut i: usize = 0;
        assert(l.take(0) =~= Seq::<LiveCellRowView>::empty());
        assert(views(kept@) =~= Seq::<LiveCellRowView>::empty());
        while i < self.live_cells.len()
            invariant
                op == (OutPointView { tx_hash: tx_hash@, index }),
                l == views(self.live_cells@),
                i <= l.len(),
                removed <= i,
                views(kept@) == without_key(l.take(i as int), op),
                removed as nat == count_key(l.take(i as int), op),
            decreases l.len() - i,
        {
            let row = &self.live_cells[i];
            assert(l.take(i + 1).drop_last() =~= l.take(i as int));
            assert(l.take(i + 1).last() == row@);
            let idx_eq = row.output_index as u64 == index as u64;
            let hit = idx_eq && bytes_eq(&row.tx_hash, tx_hash);
            assert(hit == key_matches(l.take(i + 1).last(), op));
            if hit {
                removed = removed + 1;
            } else {
                let c = copy_live_cell(row);
                proof {
                    crate::rows::lemma_views_push(kept@, c);
                }
                kept.push(c);
            }
            i = i + 1;
        }
        assert(l.take(i as int) =~= l);
        proof {
            lemma_without_unique(l, op);
        }
        self.live_cells = kept;
        removed
    }
}

/// Key equality of two live-cell rows.
fn same_live_key(a: &LiveCellRow, b: &LiveCellRow) -> (r: bool)
    ensures
        r == same_key(a@, b@),
{
    a.output_index == b.output_index && bytes_eq(&a.tx_hash, &b.tx_hash)
}

/// True when appending `added` to `existing` keeps every outpoint key unique.
pub fn keys_stay_unique(existing: &Vec<LiveCellRow>, added: &Vec<LiveCellRow>) -> (r: bool)
    requires
        unique_keys(views(existing@)),
    ensures
        r == unique_keys(views(existing@) + views(added@)),
{
    let ghost e = views(existing@);
    let ghost a = views(added@);
    let mut k: usize = 0;
    assert(e + a.take(0) =~= e);
    while k < added.len()
        invariant
            e == views(existing@),
            a == views(added@),
            k <= a.len(),
            unique_keys(e + a.take(k as int)),
        decreases a.len() - k,
    {
        let ghost l = e + a.take(k as int);
        let x = &added[k];
        assert(a[k as int] == x@);
        let mut m: usize = 0;
        while m < existing.len()
            invariant
                e == views(existing@),
                a == views(added@),
                k < a.len(),
                x@ == a[k as int],
                l == e + a.take(k as int),
                m <= e.len(),
                forall|i: int| 0 <= i < m ==> !same_key(#[trigger] l[i], x@),
            decreases e.len() - m,
        {
            if same_live_key(&existing[m], x) {
                proof {
                    let full = e + a;
                    assert(full[m as int] == e[m as int]);
                    assert(full[e.len() + k] == x@);
                    assert(same_key(full[m as int], full[e.len() + k]));
                }
                return false;
            }
            assert(l[m as int] == e[m as int]);
            m = m + 1;
        }
        let mut q: usize = 0;
        while q < k
            invariant
                e == views(existing@),
                a == views(added@),
                k < a.len(),
                x@ == a[k as int],
                l == e + a.take(k as int),
                q <= k,
                forall|i: int| 0 <= i < e.len() + q ==> !same_key(#[trigger] l[i], x@),
            decreases k - q,
        {
            if same_live_key(&added[q], x) {
                proof {
                    let full = e + a;
                    assert(full[e.len() + q] == a[q as int]);
                    assert(full[e.len() + k] == x@);
                    assert(same_key(full[e.len() + q], full[e.len() + k]));
                }
                return false;
            }
            assert(l[e.len() + q] == a[q as int]);
            q = q + 1;
        }
        proof {
            let l2 = e + a.take(k + 1);
            assert(l2 =~= l.push(x@));
            assert forall|i: int, j: int|
                0 <= i < l2.len() && 0 <= j < l2.len() && i != j implies !#[trigger] same_key(
                l2[i],
                l2[j],
            ) by {
                if i < l.len() && j < l.len() {
                    assert(l2[i] == l[i] && l2[j] == l[j]);
                    assert(!same_key(l[i], l[j]));
                } else if i < l.len() {
                    assert(l2[i] == l[i] && l2[j] == x@);
                    assert(!same_key(l[i], x@));
                } else if j < l.len() {
                    assert(l2[j] == l[j] && l2[i] == x@);
                    assert(!same_key(l[j], x@));
                }
            }
        }
        k = k + 1;
    }
    assert(a.take(k as int) =~= a);
    true
}

/// True when appending blocks at heights `added` to the block rows `existing`
/// keeps every height on one row.
pub fn heights_stay_distinct(existing: &Vec<BlockRow>, added: &Vec<u64>) -> (r: bool)
    requires
        distinct(block_heights(views(existing@))),
    ensures
        r == distinct(block_heights(views(existing@)) + added@),
{
    let ghost e = block_heights(views(existing@));
    let ghost a = added@;
    let mut k: usize = 0;
    assert(e + a.take(0) =~= e);
    while k < added.len()
        invariant
            e == block_heights(views(existing@)),
            a == added@,
            k <= a.len(),
            distinct(e + a.take(k as int)),
        decreases a.len() - k,
    {
        let ghost l = e + a.take(k as int);
        let x = added[k];
        let mut m: usize = 0;
        while m < existing.len()
            invariant
                e == block_heights(views(existing@)),
                a == added@,
                k < a.len(),
                x == a[k as int],
                l == e + a.take(k as int),
                m <= e.len(),
                forall|i: int| 0 <= i < m ==> l[i] != x,
            decreases e.len() - m,
        {
            assert(e[m as int] == existing@[m as int].number);
            if existing[m].number == x {
                proof {
                    let full = e + a;
                    assert(full[m as int] == e[m as int]);
                    assert(full[e.len() + k] == x);
                }
                return false;
            }
            assert(l[m as int] == e[m as int]);
            m = m + 1;
        }
        let mut q: usize = 0;
        while q < k
            invariant
                e == block_heights(views(existing@)),
                a == added@,
                k < a.len(),
                x == a[k as int],
                l == e + a.take(k as int),
                q <= k,
                forall|i: int| 0 <= i < e.len() + q ==> l[i] != x,
            decreases k - q,
        {
            if added[q] == x {
                proof {
                    let full = e + a;
                    assert(full[e.len() + q] == a[q as int]);
                    assert(full[e.len() + k] == x);
                }
                return false;
            }
            assert(l[e.len() + q] == a[q as int]);
            q = q + 1;
        }
        proof {
            let l2 = e + a.take(k + 1);
            assert(l2 =~= l.push(x));
            assert forall|i: int, j: int|
                0 <= i < l2.len() && 0 <= j < l2.len() && i != j implies l2[i] != l2[j] by {
                if i < l.len() && j < l.len() {
                    assert(l2[i] == l[i] && l2[j] == l[j]);
                } else if i < l.len() {
                    assert(l2[i] == l[i] && l2[j] == x);
                } else if j < l.len() {
                    assert(l2[j] == l[j] && l2[i] == x);
                }
            }
        }
        k = k + 1;
    }
    assert(a.take(k as int) =~= a);
    true
}

fn append_rows<T: View>(dst: &mut Vec<T>, src: &mut Vec<T>)
    ensures
        views(final(dst)@) == views(old(dst)@) + views(old(src)@),
{
    dst.append(src);
    assert(views(dst@) =~= views(old(dst)@) + views(old(src)@));
}

} // verus!
