//! The batch sync pipeline: heights are split into chunks of at most
//! `batch_size`, each chunk is fetched in one call, projected, and committed
//! as a whole; spent outpoints are handed on as each chunk is projected.

use vstd::prelude::*;
use vstd::multiset::Multiset;
use crate::model::{Block, OutPoint};
use crate::projection::{
    block_rows_of, canonical_rows_of, cell_rows_of, inputs_of, project_chunk, tx_rows_of,
    uncle_rows_of,
};
use crate::model::ScriptView;
use crate::rows::{
    concat, lemma_concat_push, cell_has_script, lemma_concat_append, live_of, live_rows, script_of_cells, views, CellRowView,
};
use crate::store::{
    block_heights, canonical_heights, distinct, heights_stay_distinct, keys_stay_unique,
    unique_keys,
};
use crate::store::Tables;

verus! {

#[derive(Debug, Clone, Copy, PartialEq, Eq, Structural)]
pub enum SyncError {
    /// The block source failed, or answered with blocks other than those asked for.
    Fetch,
    /// The store refused the chunk: a live cell of it repeats an outpoint key
    /// already live or live twice within the chunk.
    Store,
    /// The receiver of spent outpoints has gone away.
    ChannelClosed,
}

/// Supplier of decoded blocks for a list of heights.
pub trait BlockSource {
    fn pull_blocks(&mut self, heights: &Vec<u64>) -> Result<Vec<Block>, SyncError>;
}

/// A block source over blocks held in memory; each block is served once.
pub struct MemorySource {
    pub blocks: Vec<Block>,
}

impl MemorySource {
    pub fn new(blocks: Vec<Block>) -> (r: MemorySource)
        ensures
            r.blocks == blocks,
    {
        MemorySource { blocks }
    }

    fn position_of(&self, height: u64) -> (r: Option<usize>)
        ensures
            r matches Some(i) ==> i < self.blocks@.len() && self.blocks@[i as int].number == height,
    {
        let mut i: usize = 0;
        while i < self.blocks.len()
            invariant
                i <= self.blocks@.len(),
            decreases self.blocks@.len() - i,
        {
            if self.blocks[i].number == height {
                return Some(i);
            }
            i = i + 1;
        }
        None
    }
}

impl BlockSource for MemorySource {
    /// The held blocks at `heights`, in that order; fails when one is missing.
    fn pull_blocks(&mut self, heights: &Vec<u64>) -> Result<Vec<Block>, SyncError> {
        let mut out: Vec<Block> = Vec::new();
        let mut i: usize = 0;
        while i < heights.len()
            invariant
                i <= heights@.len(),
            decreases heights@.len() - i,
        {
            match self.position_of(heights[i]) {
                Some(p) => {
                    let b = self.blocks.remove(p);
                    out.push(b);
                },
                None => {
                    return Err(SyncError::Fetch);
                },
            }
            i = i + 1;
        }
        Ok(out)
    }
}

/// The heights of `bs`, in order.
pub open spec fn numbers(bs: Seq<Block>) -> Seq<u64> {
    Seq::new(bs.len(), |i: int| bs[i].number)
}

/// The largest value of `s`; none for an empty sequence.
pub open spec fn seq_max(s: Seq<u64>) -> Option<u64>
    decreases s.len(),
{
    if s.len() == 0 {
        None
    } else {
        match seq_max(s.drop_last()) {
            None => Some(s.last()),
            Some(m) => Some(if s.last() > m { s.last() } else { m }),
        }
    }
}

/// `store` holds, after the tables of `base`, exactly the rows of blocks `bs`.
pub open spec fn holds_rows_of(store: Tables, base: Tables, bs: Seq<Block>) -> bool {
    &&& views(store.blocks@) == views(base.blocks@) + block_rows_of(bs)
    &&& views(store.uncles@) == views(base.uncles@) + uncle_rows_of(bs)
    &&& views(store.canonical@) == views(base.canonical@) + canonical_rows_of(bs)
    &&& views(store.transactions@) == views(base.transactions@) + tx_rows_of(bs)
    &&& views(store.cells@) == views(base.cells@) + cell_rows_of(bs)
    &&& views(store.live_cells@) == views(base.live_cells@) + cell_rows_of(bs).map_values(
        |c: CellRowView| live_of(c),
    )
    &&& forall|x: ScriptView| #[trigger]
        views(store.scripts@).contains(x) <==> (views(base.scripts@).contains(x) || script_of_cells(
            cell_rows_of(bs),
            x,
        ))
}

/// `store` holds, after `base`, exactly the rows of blocks `bs`, whose
/// heights are `heights` in some order.
pub open spec fn rows_synced(store: Tables, base: Tables, bs: Seq<Block>, heights: Seq<u64>) -> bool {
    &&& numbers(bs).to_multiset() == heights.to_multiset()
    &&& holds_rows_of(store, base, bs)
}

/// Each part `k` of `parts` carries, in some order, the heights of chunk `k`
/// of `heights` for chunks of `size` heights.
pub open spec fn chunked(parts: Seq<Seq<Block>>, heights: Seq<u64>, size: nat) -> bool {
    forall|k: int|
        0 <= k < parts.len() ==> #[trigger] numbers(parts[k]).to_multiset() == heights.subrange(
            chunk_start(k as nat, size),
            chunk_end(k as nat, size, heights.len() as int),
        ).to_multiset()
}

/// End offset in a height list of length `n` of chunk `c` for chunks of
/// `size` heights.
pub open spec fn chunk_end(c: nat, size: nat, n: int) -> int {
    if chunk_start(c, size) + size < n {
        chunk_start(c, size) + size
    } else {
        n
    }
}

/// `store` and `ops` hold, after `base` and `base_ops`, exactly the rows and
/// the spent outpoints of blocks `bs`, whose heights are `heights` in some order.
pub open spec fn synced(
    store: Tables,
    base: Tables,
    ops: Seq<OutPoint>,
    base_ops: Seq<OutPoint>,
    bs: Seq<Block>,
    heights: Seq<u64>,
) -> bool {
    &&& numbers(bs).to_multiset() == heights.to_multiset()
    &&& holds_rows_of(store, base, bs)
    &&& views(ops) == views(base_ops) + inputs_of(bs)
}

/// The store takes the rows of `bs`: no height of them is stored already or
/// repeated among them, and likewise no outpoint key of their live cells.
pub open spec fn store_accepts(store: Tables, bs: Seq<Block>) -> bool {
    &&& distinct(block_heights(views(store.blocks@)) + numbers(bs))
    &&& unique_keys(views(store.live_cells@) + live_rows(cell_rows_of(bs)))
}

/// Offset in the height list of chunk `c` for chunks of `size` heights.
pub open spec fn chunk_start(c: nat, size: nat) -> int {
    c as int * size as int
}

proof fn lemma_script_of_cells_append(a: Seq<CellRowView>, b: Seq<CellRowView>, x: ScriptView)
    ensures
        script_of_cells(a + b, x) <==> (script_of_cells(a, x) || script_of_cells(b, x)),
{
    let ab = a + b;
    if script_of_cells(ab, x) {
        let i = choose|i: int| 0 <= i < ab.len() && #[trigger] cell_has_script(ab[i], x);
        if i < a.len() {
            assert(a[i] == ab[i]);
        } else {
            assert(b[i - a.len()] == ab[i]);
        }
    }
    if script_of_cells(a, x) {
        let i = choose|i: int| 0 <= i < a.len() && #[trigger] cell_has_script(a[i], x);
        assert(ab[i] == a[i]);
    }
    if script_of_cells(b, x) {
        let i = choose|i: int| 0 <= i < b.len() && #[trigger] cell_has_script(b[i], x);
        assert(ab[i + a.len()] == b[i]);
    }
}

proof fn lemma_rows_append(a: Seq<Block>, b: Seq<Block>)
    ensures
        block_rows_of(a + b) == block_rows_of(a) + block_rows_of(b),
        uncle_rows_of(a + b) == uncle_rows_of(a) + uncle_rows_of(b),
        canonical_rows_of(a + b) == canonical_rows_of(a) + canonical_rows_of(b),
        tx_rows_of(a + b) == tx_rows_of(a) + tx_rows_of(b),
        cell_rows_of(a + b) == cell_rows_of(a) + cell_rows_of(b),
        inputs_of(a + b) == inputs_of(a) + inputs_of(b),
        numbers(a + b) == numbers(a) + numbers(b),
{
    assert(block_rows_of(a + b) =~= block_rows_of(a) + block_rows_of(b));
    assert(uncle_rows_of(a + b) =~= uncle_rows_of(a) + uncle_rows_of(b));
    assert(canonical_rows_of(a + b) =~= canonical_rows_of(a) + canonical_rows_of(b));
    assert(numbers(a + b) =~= numbers(a) + numbers(b));
    let ab = a + b;
    assert(Seq::new(ab.len(), |i: int| crate::rows::tx_rows_of_block(ab[i])) =~= Seq::new(
        a.len(),
        |i: int| crate::rows::tx_rows_of_block(a[i]),
    ) + Seq::new(b.len(), |i: int| crate::rows::tx_rows_of_block(b[i])));
    lemma_concat_append(
        Seq::new(a.len(), |i: int| crate::rows::tx_rows_of_block(a[i])),
        Seq::new(b.len(), |i: int| crate::rows::tx_rows_of_block(b[i])),
    );
    assert(Seq::new(ab.len(), |i: int| crate::rows::cell_rows_of_block(ab[i])) =~= Seq::new(
        a.len(),
        |i: int| crate::rows::cell_rows_of_block(a[i]),
    ) + Seq::new(b.len(), |i: int| crate::rows::cell_rows_of_block(b[i])));
    lemma_concat_append(
        Seq::new(a.len(), |i: int| crate::rows::cell_rows_of_block(a[i])),
        Seq::new(b.len(), |i: int| crate::rows::cell_rows_of_block(b[i])),
    );
    assert(Seq::new(ab.len(), |i: int| crate::rows::inputs_of_block(ab[i])) =~= Seq::new(
        a.len(),
        |i: int| crate::rows::inputs_of_block(a[i]),
    ) + Seq::new(b.len(), |i: int| crate::rows::inputs_of_block(b[i])));
    lemma_concat_append(
        Seq::new(a.len(), |i: int| crate::rows::inputs_of_block(a[i])),
        Seq::new(b.len(), |i: int| crate::rows::inputs_of_block(b[i])),
    );
}

/// The heights carried by `blocks`, in order.
pub fn block_numbers(blocks: &Vec<Block>) -> (r: Vec<u64>)
    ensures
        r@ == numbers(blocks@),
{
    let mut r: Vec<u64> = Vec::new();
    let mut i: usize = 0;
    while i < blocks.len()
        invariant
            i <= blocks@.len(),
            r@ == numbers(blocks@).take(i as int),
        decreases blocks@.len() - i,
    {
        r.push(blocks[i].number);
        assert(numbers(blocks@).take(i + 1) =~= numbers(blocks@).take(i as int).push(
            blocks@[i as int].number,
        ));
        i = i + 1;
    }
    assert(numbers(blocks@).take(i as int) =~= numbers(blocks@));
    r
}

proof fn lemma_empty_multiset(s: Seq<u64>)
    requires
        s.len() == 0,
    ensures
        s.to_multiset() == Multiset::<u64>::empty(),
{
    vstd::seq_lib::to_multiset_len(s);
    vstd::multiset::lemma_multiset_empty_len(s.to_multiset());
}

/// True when `got` holds the heights `heights` in some order: each height as
/// many times, none missing, none extra.
pub fn same_heights(got: Vec<u64>, heights: &Vec<u64>) -> (r: bool)
    ensures
        r == (got@.to_multiset() == heights@.to_multiset()),
{
    let ghost g0 = got@;
    let mut rest = got;
    let mut j: usize = 0;
    proof {
        lemma_empty_multiset(heights@.take(0));
    }
    assert(rest@.to_multiset().add(heights@.take(0).to_multiset()) =~= g0.to_multiset());
    while j < heights.len()
        invariant
            g0 == got@,
            j <= heights@.len(),
            rest@.to_multiset().add(heights@.take(j as int).to_multiset()) == g0.to_multiset(),
        decreases heights@.len() - j,
    {
        let h = heights[j];
        let mut p: usize = 0;
        while p < rest.len() && rest[p] != h
            invariant
                p <= rest@.len(),
                forall|q: int| 0 <= q < p ==> rest@[q] != h,
            decreases rest@.len() - p,
        {
            p = p + 1;
        }
        if p == rest.len() {
            proof {
                assert(!rest@.contains(h));
                let t = heights@.take(j as int);
                let u = heights@.skip(j as int);
                assert(heights@ =~= t + u);
                vstd::seq_lib::lemma_multiset_commutative(t, u);
                assert(u[0] == h);
                assert(u.contains(h));
                vstd::seq_lib::to_multiset_contains(u, h);
                vstd::seq_lib::to_multiset_contains(rest@, h);
                assert(rest@.to_multiset().count(h) == 0);
                assert(g0.to_multiset().count(h) == t.to_multiset().count(h));
                assert(heights@.to_multiset().count(h) > t.to_multiset().count(h));
            }
            return false;
        }
        let ghost before = rest@;
        rest.remove(p);
        proof {
            assert(before.remove(p as int) == rest@);
            assert(before[p as int] == h);
            vstd::seq_lib::to_multiset_remove(before, p as int);
            assert(before.contains(h));
            vstd::seq_lib::to_multiset_contains(before, h);
            vstd::seq_lib::to_multiset_build(heights@.take(j as int), h);
            assert(before.to_multiset().count(h) > 0);
            assert(heights@.take(j + 1) =~= heights@.take(j as int).push(h));
            assert(heights@.take(j + 1).to_multiset() =~= heights@.take(j as int).to_multiset().insert(h));
            assert(rest@.to_multiset().add(heights@.take(j + 1).to_multiset()) =~= g0.to_multiset());
        }
        j = j + 1;
    }
    assert(heights@.take(j as int) =~= heights@);
    if rest.len() != 0 {
        proof {
            vstd::seq_lib::to_multiset_len(rest@);
            vstd::seq_lib::to_multiset_len(heights@);
            vstd::seq_lib::to_multiset_len(g0);
            assert(g0.to_multiset().len() == rest@.len() + heights@.len());
        }
        return false;
    }
    proof {
        lemma_empty_multiset(rest@);
    }
    assert(g0.to_multiset() =~= heights@.to_multiset());
    true
}

/// The heights `list[start..end]`.
pub fn chunk_of(list: &Vec<u64>, start: usize, end: usize) -> (r: Vec<u64>)
    requires
        start <= end <= list@.len(),
    ensures
        r@ == list@.subrange(start as int, end as int),
{
    let mut r: Vec<u64> = Vec::new();
    let mut i: usize = start;
    while i < end
        invariant
            start <= i <= end <= list@.len(),
            r@ == list@.subrange(start as int, i as int),
        decreases end - i,
    {
        r.push(list[i]);
        assert(list@.subrange(start as int, i + 1) =~= list@.subrange(start as int, i as int).push(
            list@[i as int],
        ));
        i = i + 1;
    }
    r
}

/// Folds `heights` into the running maximum `max`.
fn fold_max(max: Option<u64>, heights: &Vec<u64>, Ghost(prefix): Ghost<Seq<u64>>) -> (r: Option<
    u64,
>)
    requires
        max == seq_max(prefix),
    ensures
        r == seq_max(prefix + heights@),
{
    let mut m = max;
    let mut i: usize = 0;
    assert(prefix + heights@.take(0) =~= prefix);
    while i < heights.len()
        invariant
            i <= heights@.len(),
            m == seq_max(prefix + heights@.take(i as int)),
        decreases heights@.len() - i,
    {
        let h = heights[i];
        assert((prefix + heights@.take(i + 1)).drop_last() =~= prefix + heights@.take(i as int));
        assert((prefix + heights@.take(i + 1)).last() == h);
        m = match m {
            None => Some(h),
            Some(x) => Some(if h > x { h } else { x }),
        };
        i = i + 1;
    }
    assert(heights@.take(i as int) =~= heights@);
    m
}

/// Commits one fetched chunk. When `blocks` do not carry the heights
/// `heights` (in any order) the answer is malformed: a `Fetch` error, and
/// nothing changes. Otherwise their spent outpoints are appended to
/// `out_points` whatever happens next, and their rows are written unless the
/// store refuses them with a `Store` error, leaving the tables unchanged: a
/// height already stored or repeated, or a live-cell key already live or
/// repeated.
pub fn commit_chunk(
    store: &mut Tables,
    heights: &Vec<u64>,
    blocks: Vec<Block>,
    out_points: &mut Vec<OutPoint>,
) -> (r: Result<(), SyncError>)
    requires
        old(store).wf(),
    ensures
        final(store).wf(),
        r.is_ok() <==> numbers(blocks@).to_multiset() == heights@.to_multiset()
            && store_accepts(*old(store), blocks@),
        r == Err::<(), SyncError>(SyncError::Fetch) <==> numbers(blocks@).to_multiset()
            != heights@.to_multiset(),
        r matches Err(e) ==> *final(store) == *old(store) && (e == SyncError::Fetch
            || e == SyncError::Store),
        r == Err::<(), SyncError>(SyncError::Fetch) ==> *final(out_points) == *old(out_points),
        r != Err::<(), SyncError>(SyncError::Fetch) ==> views(final(out_points)@) == views(
            old(out_points)@,
        ) + inputs_of(blocks@),
        r.is_ok() ==> holds_rows_of(*final(store), *old(store), blocks@),
{
    if !same_heights(block_numbers(&blocks), heights) {
        return Err(SyncError::Fetch);
    }
    let mut batch = project_chunk(&blocks);
    let ghost op0 = views(out_points@);
    let ghost bo = views(batch.out_points@);
    out_points.append(&mut batch.out_points);
    assert(views(out_points@) =~= op0 + bo);
    assert(block_heights(views(batch.blocks@)) =~= numbers(blocks@));
    assert(canonical_heights(views(batch.canonical@)) =~= numbers(blocks@));
    if !heights_stay_distinct(&store.blocks, &block_numbers(&blocks)) {
        return Err(SyncError::Store);
    }
    if !keys_stay_unique(&store.live_cells, &batch.live_cells) {
        return Err(SyncError::Store);
    }
    let ghost bsc = views(batch.scripts@);
    store.commit(batch);
    assert forall|x: ScriptView| #[trigger]
        views(store.scripts@).contains(x) <==> (views(old(store).scripts@).contains(x)
            || script_of_cells(cell_rows_of(blocks@), x)) by {
        assert(bsc.contains(x) <==> script_of_cells(cell_rows_of(blocks@), x));
    }
    Ok(())
}

/// Syncs the blocks at `block_list`, chunk by chunk of at most `batch_size`
/// heights. Each chunk is fetched in one call and committed by `commit_chunk`.
/// On success returns the largest height synced, none for an empty list; the
/// store then holds the rows of blocks carrying exactly the requested heights,
/// in the order each chunk arrived, and `out_points` the outpoints their inputs
/// spend; the blocks come chunk after chunk in the list's order. On an error
/// the chunk that failed wrote no row: the store holds exactly the rows of the
/// chunks before it, and `out_points` their outpoints, followed by those of the
/// failing chunk when the store refused it.
pub fn sync_blocks_process<S: BlockSource>(
    store: &mut Tables,
    source: &mut S,
    block_list: &Vec<u64>,
    out_points: &mut Vec<OutPoint>,
    batch_size: usize,
) -> (r: Result<Option<u64>, SyncError>)
    requires
        batch_size > 0,
        old(store).wf(),
    ensures
        final(store).wf(),
        block_list@.len() == 0 ==> r == Ok::<Option<u64>, SyncError>(None) && *final(store)
            == *old(store) && *final(out_points) == *old(out_points),
        r matches Err(e) ==> (e == SyncError::Fetch || e == SyncError::Store) && exists|
            c: nat,
            bs: Seq<Block>,
        |
            #![trigger rows_synced(*final(store), *old(store), bs, block_list@.take(chunk_start(c, batch_size as nat)))]
            chunk_start(c, batch_size as nat) < block_list@.len() && rows_synced(
                *final(store),
                *old(store),
                bs,
                block_list@.take(chunk_start(c, batch_size as nat)),
            ) && (e == SyncError::Fetch ==> views(final(out_points)@) == views(old(out_points)@)
                + inputs_of(bs)) && (e == SyncError::Store ==> exists|fb: Seq<Block>|
                #![trigger inputs_of(fb)]
                numbers(fb).to_multiset() == block_list@.subrange(
                    chunk_start(c, batch_size as nat),
                    chunk_end(c, batch_size as nat, block_list@.len() as int),
                ).to_multiset() && views(final(out_points)@) == views(old(out_points)@) + inputs_of(
                    bs,
                ) + inputs_of(fb)),
        r matches Ok(m) ==> m == seq_max(block_list@) && exists|parts: Seq<Seq<Block>>|
            #![trigger synced(*final(store), *old(store), final(out_points)@, old(out_points)@, concat(parts), block_list@)]
            chunked(parts, block_list@, batch_size as nat) && chunk_start(
                parts.len(),
                batch_size as nat,
            ) >= block_list@.len() && synced(
                *final(store),
                *old(store),
                final(out_points)@,
                old(out_points)@,
                concat(parts),
                block_list@,
            ),
{
    let n = block_list.len();
    let mut max: Option<u64> = None;
    let mut start: usize = 0;
    let ghost mut fetched: Seq<Block> = Seq::empty();
    let ghost mut c: nat = 0;
    let ghost mut parts: Seq<Seq<Block>> = Seq::empty();
    proof {
        assert(concat(parts) =~= fetched);
        assert(block_list@.take(0) =~= Seq::<u64>::empty());
        assert(numbers(fetched) =~= Seq::<u64>::empty());
        let e = fetched;
        assert(block_rows_of(e) =~= Seq::empty());
        assert(uncle_rows_of(e) =~= Seq::empty());
        assert(canonical_rows_of(e) =~= Seq::empty());
        assert(tx_rows_of(e) =~= Seq::empty());
        assert(cell_rows_of(e) =~= Seq::empty());
        assert(inputs_of(e) =~= Seq::empty());
        assert(views(store.blocks@) + block_rows_of(e) =~= views(store.blocks@));
        assert(views(store.uncles@) + uncle_rows_of(e) =~= views(store.uncles@));
        assert(views(store.canonical@) + canonical_rows_of(e) =~= views(store.canonical@));
        assert(views(store.transactions@) + tx_rows_of(e) =~= views(store.transactions@));
        assert(views(store.cells@) + cell_rows_of(e) =~= views(store.cells@));
        assert(views(store.live_cells@) + cell_rows_of(e).map_values(|c: CellRowView| live_of(c))
            =~= views(store.live_cells@));
        assert(views(out_points@) + inputs_of(e) =~= views(out_points@));
        assert(chunk_start(0, batch_size as nat) == 0);
    }
    while start < n
        invariant
            n == block_list@.len(),
            batch_size > 0,
            start <= n,
            start < n ==> start == chunk_start(c, batch_size as nat),
            start < n ==> parts.len() == c,
            start == n ==> chunk_start(parts.len(), batch_size as nat) >= n,
            fetched == concat(parts),
            chunked(parts, block_list@, batch_size as nat),
            start == 0 ==> *store == *old(store) && *out_points == *old(out_points),
            store.wf(),
            max == seq_max(block_list@.take(start as int)),
            synced(*store, *old(store), out_points@, old(out_points)@, fetched, block_list@.take(start as int)),
        decreases n - start,
    {
        let end = if n - start > batch_size {
            start + batch_size
        } else {
            n
        };
        let chunk = chunk_of(block_list, start, end);
        assert(end == chunk_end(c, batch_size as nat, n as int));
        let blocks = match source.pull_blocks(&chunk) {
            Ok(b) => b,
            Err(_) => {
                assert(rows_synced(*store, *old(store), fetched, block_list@.take(chunk_start(c, batch_size as nat))));
                return Err(SyncError::Fetch);
            },
        };
        let ghost bs = blocks@;
        let ghost ops_before = views(out_points@);
        match commit_chunk(store, &chunk, blocks, out_points) {
            Ok(()) => {},
            Err(e) => {
                assert(rows_synced(*store, *old(store), fetched, block_list@.take(chunk_start(c, batch_size as nat))));
                if e == SyncError::Store {
                    assert(numbers(bs).to_multiset() == block_list@.subrange(
                        chunk_start(c, batch_size as nat),
                        chunk_end(c, batch_size as nat, n as int),
                    ).to_multiset());
                    assert(views(out_points@) == views(old(out_points)@) + inputs_of(fetched)
                        + inputs_of(bs));
                }
                return Err(e);
            },
        }
        max = fold_max(max, &chunk, Ghost(block_list@.take(start as int)));
        proof {
            lemma_rows_append(fetched, bs);
            assert(block_list@.take(start as int) + chunk@ =~= block_list@.take(end as int));
            vstd::seq_lib::lemma_multiset_commutative(block_list@.take(start as int), chunk@);
            vstd::seq_lib::lemma_multiset_commutative(numbers(fetched), numbers(bs));
            let f2 = fetched + bs;
            lemma_concat_push(parts, bs);
            assert(chunk@ == block_list@.subrange(
                chunk_start(parts.len(), batch_size as nat),
                chunk_end(parts.len(), batch_size as nat, n as int),
            ));
            let p2 = parts.push(bs);
            assert forall|k: int| 0 <= k < p2.len() implies #[trigger] numbers(p2[k]).to_multiset()
                == block_list@.subrange(
                chunk_start(k as nat, batch_size as nat),
                chunk_end(k as nat, batch_size as nat, n as int),
            ).to_multiset() by {
                if k < parts.len() {
                    assert(p2[k] == parts[k]);
                }
            }
            assert(chunk_start((c + 1) as nat, batch_size as nat) == chunk_start(c, batch_size as nat)
                + batch_size) by (nonlinear_arith);
            parts = p2;
            let cm = |c: CellRowView| live_of(c);
            assert(cell_rows_of(f2).map_values(cm) =~= cell_rows_of(fetched).map_values(cm)
                + cell_rows_of(bs).map_values(cm));
            assert forall|x: ScriptView| #[trigger]
                views(store.scripts@).contains(x) <==> (views(old(store).scripts@).contains(x)
                    || script_of_cells(cell_rows_of(f2), x)) by {
                lemma_script_of_cells_append(cell_rows_of(fetched), cell_rows_of(bs), x);
            }
            fetched = f2;
            assert(views(store.blocks@) =~= views(old(store).blocks@) + block_rows_of(fetched));
            assert(views(store.uncles@) =~= views(old(store).uncles@) + uncle_rows_of(fetched));
            assert(views(store.canonical@) =~= views(old(store).canonical@) + canonical_rows_of(
                fetched,
            ));
            assert(views(store.transactions@) =~= views(old(store).transactions@) + tx_rows_of(
                fetched,
            ));
            assert(views(store.cells@) =~= views(old(store).cells@) + cell_rows_of(fetched));
            assert(views(store.live_cells@) =~= views(old(store).live_cells@) + cell_rows_of(
                fetched,
            ).map_values(cm));
            assert(views(out_points@) =~= views(old(out_points)@) + inputs_of(fetched));
            assert(numbers(fetched).to_multiset() =~= block_list@.take(end as int).to_multiset());
            if end < n {
                assert(end == start + batch_size);
            }
            c = c + 1;
        }
        start = end;
    }
    assert(block_list@.take(n as int) =~= block_list@);
    Ok(max)
}

/// In the transaction table of synced blocks `bs`, the rows of block `i` are
/// one contiguous run: one row per transaction of the block, carrying its
/// height and hash, indexed 0, 1, ... with the transactions' hashes.
pub proof fn lemma_block_tx_rows(bs: Seq<Block>, i: int)
    requires
        0 <= i < bs.len(),
    ensures
        ({
            let parts = Seq::new(bs.len(), |j: int| crate::rows::tx_rows_of_block(bs[j]));
            let o = concat(parts.take(i)).len() as int;
            let n = bs[i].transactions@.len() as int;
            &&& o + n <= tx_rows_of(bs).len()
            &&& forall|t: int|
                0 <= t < n ==> (#[trigger] tx_rows_of(bs)[o + t]).tx_index == t && tx_rows_of(
                    bs,
                )[o + t].block_number == bs[i].number && tx_rows_of(bs)[o + t].block_hash
                    == bs[i].hash@ && tx_rows_of(bs)[o + t].tx_hash
                    == bs[i].transactions@[t].hash@
        }),
{
    let parts = Seq::new(bs.len(), |j: int| crate::rows::tx_rows_of_block(bs[j]));
    assert(Seq::new(bs.len(), |j: int| crate::rows::tx_rows_of_block(bs[j])) =~= parts);
    assert(tx_rows_of(bs) == concat(parts));
    crate::rows::lemma_concat_part(parts, i);
    let o = concat(parts.take(i)).len() as int;
    let n = bs[i].transactions@.len() as int;
    assert forall|t: int| 0 <= t < n implies (#[trigger] tx_rows_of(bs)[o + t]).tx_index == t
        && tx_rows_of(bs)[o + t].block_number == bs[i].number && tx_rows_of(bs)[o + t].block_hash
        == bs[i].hash@ && tx_rows_of(bs)[o + t].tx_hash == bs[i].transactions@[t].hash@ by {
        assert(tx_rows_of(bs).subrange(o, o + n)[t] == tx_rows_of(bs)[o + t]);
    }
}

/// In the cell table of synced blocks `bs`, output `k` of transaction `t` of
/// block `i` has one cell row keyed by the transaction hash and `k`, and the
/// live-cell row at the same position carries the same key.
pub proof fn lemma_output_cell_rows(bs: Seq<Block>, i: int, t: int, k: int)
    requires
        0 <= i < bs.len(),
        0 <= t < bs[i].transactions@.len(),
        0 <= k < bs[i].transactions@[t].outputs@.len(),
    ensures
        ({
            let parts = Seq::new(bs.len(), |j: int| crate::rows::cell_rows_of_block(bs[j]));
            let inner = Seq::new(
                bs[i].transactions@.len(),
                |u: int| crate::rows::cell_rows_of_tx(bs[i], u),
            );
            let p = concat(parts.take(i)).len() + concat(inner.take(t)).len() + k;
            &&& 0 <= p < cell_rows_of(bs).len()
            &&& cell_rows_of(bs)[p].tx_hash == bs[i].transactions@[t].hash@
            &&& cell_rows_of(bs)[p].output_index == k
            &&& live_rows(cell_rows_of(bs))[p].tx_hash == cell_rows_of(bs)[p].tx_hash
            &&& live_rows(cell_rows_of(bs))[p].output_index == cell_rows_of(bs)[p].output_index
        }),
{
    let parts = Seq::new(bs.len(), |j: int| crate::rows::cell_rows_of_block(bs[j]));
    let inner = Seq::new(bs[i].transactions@.len(), |u: int| crate::rows::cell_rows_of_tx(bs[i], u));
    assert(cell_rows_of(bs) == concat(parts));
    crate::rows::lemma_concat_part(parts, i);
    crate::rows::lemma_concat_part(inner, t);
    let o = concat(parts.take(i)).len() as int;
    let q = concat(inner.take(t)).len() as int;
    let blk = crate::rows::cell_rows_of_block(bs[i]);
    assert(blk == concat(inner));
    assert(parts[i] == blk);
    assert(cell_rows_of(bs).subrange(o, o + blk.len())[q + k] == cell_rows_of(bs)[o + q + k]);
    assert(blk.subrange(q, q + inner[t].len())[k] == blk[q + k]);
}

proof fn lemma_seq_max_bounds(s: Seq<u64>)
    ensures
        s.len() == 0 <==> seq_max(s) is None,
        seq_max(s) matches Some(m) ==> s.contains(m) && forall|i: int|
            0 <= i < s.len() ==> #[trigger] s[i] <= m,
    decreases s.len(),
{
    if s.len() > 0 {
        let p = s.drop_last();
        lemma_seq_max_bounds(p);
        assert(forall|i: int| 0 <= i < p.len() ==> p[i] == s[i]);
        assert(s[s.len() - 1] == s.last());
        if let Some(m) = seq_max(p) {
            let k = choose|k: int| 0 <= k < p.len() && p[k] == m;
            assert(s[k] == m);
        }
    }
}

/// The heights of the block rows of `bs`, in order.
pub open spec fn row_numbers(bs: Seq<Block>) -> Seq<u64> {
    Seq::new(bs.len(), |i: int| block_rows_of(bs)[i].number)
}

/// After a successful sync of a non-empty height list, the synced blocks give
/// one block row per requested height (the row heights are the requested
/// heights, each as often as requested), and the reported maximum is the
/// largest requested height.
pub proof fn lemma_synced_heights(bs: Seq<Block>, heights: Seq<u64>)
    requires
        numbers(bs).to_multiset() == heights.to_multiset(),
        heights.len() > 0,
    ensures
        block_rows_of(bs).len() == heights.len(),
        row_numbers(bs).to_multiset() == heights.to_multiset(),
        seq_max(heights) matches Some(m) && heights.contains(m) && forall|i: int|
            0 <= i < heights.len() ==> #[trigger] heights[i] <= m,
{
    lemma_seq_max_bounds(heights);
    assert(row_numbers(bs) =~= numbers(bs));
    vstd::seq_lib::to_multiset_len(numbers(bs));
    vstd::seq_lib::to_multiset_len(heights);
}

} // verus!
