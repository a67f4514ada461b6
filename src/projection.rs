//! Projection of decoded blocks into the rows of one chunk.

use vstd::prelude::*;
use crate::model::{copy_bytes, duplicate_opt_script, Block, OutPoint, OutPointView, Script, ScriptView};
use crate::rows::{
    block_row_of, canonical_row_of, cell_has_script, cell_row_of, cell_rows_of_block,
    cell_rows_of_tx, cell_rows_upto, concat, generated_id, inputs_of_block, inputs_upto,
    lemma_cell_rows_step, lemma_concat_push, lemma_inputs_step, lemma_views_push, live_of,
    live_rows, script_of_cells, tx_row_of, tx_rows_of_block, uncle_row_of, views, BlockRow,
    BlockRowView, CanonicalRow, CanonicalRowView, CellRow, CellRowView, LiveCellRow,
    TransactionRow, TransactionRowView, UncleRow, UncleRowView,
};

verus! {

/// Identifier of the `seq`-th item of the block at `height`.
pub fn generate_id(height: u64, seq: usize) -> (r: u128)
    ensures
        r as int == generated_id(height, seq as nat),
{
    assert(height as int * 0x1_0000_0000_0000_0000 + seq as int <= u128::MAX) by (nonlinear_arith)
        requires
            height <= u64::MAX,
            seq <= u64::MAX,
    ;
    height as u128 * 0x1_0000_0000_0000_0000u128 + seq as u128
}

pub fn block_row(b: &Block) -> (r: BlockRow)
    ensures
        r@ == block_row_of(*b),
{
    BlockRow {
        number: b.number,
        hash: copy_bytes(&b.hash),
        timestamp: b.timestamp,
        epoch: b.epoch,
        transaction_count: b.transactions.len(),
    }
}

pub fn transaction_row(b: &Block, t: usize) -> (r: TransactionRow)
    requires
        t < b.transactions@.len(),
    ensures
        r@ == tx_row_of(*b, t as int),
{
    TransactionRow {
        id: generate_id(b.number, t),
        block_number: b.number,
        block_hash: copy_bytes(&b.hash),
        tx_index: t,
        tx_hash: copy_bytes(&b.transactions[t].hash),
        timestamp: b.timestamp,
    }
}

pub fn cell_row(b: &Block, t: usize, k: usize) -> (r: CellRow)
    requires
        t < b.transactions@.len(),
        k < b.transactions@[t as int].outputs@.len(),
    ensures
        r@ == cell_row_of(*b, t as int, k as int),
{
    let tx = &b.transactions[t];
    let out = &tx.outputs[k];
    CellRow {
        tx_hash: copy_bytes(&tx.hash),
        output_index: k,
        tx_index: t,
        block_number: b.number,
        block_hash: copy_bytes(&b.hash),
        epoch: b.epoch,
        capacity: out.capacity,
        lock: out.lock.duplicate(),
        type_script: duplicate_opt_script(&out.type_script),
        data: copy_bytes(&out.data),
    }
}

pub fn live_cell_of(c: &CellRow) -> (r: LiveCellRow)
    ensures
        r@ == live_of(c@),
{
    LiveCellRow {
        tx_hash: copy_bytes(&c.tx_hash),
        output_index: c.output_index,
        tx_index: c.tx_index,
        block_number: c.block_number,
        capacity: c.capacity,
        lock: c.lock.duplicate(),
        type_script: duplicate_opt_script(&c.type_script),
        data: copy_bytes(&c.data),
    }
}

/// A copy of a live-cell row.
pub fn copy_live_cell(c: &LiveCellRow) -> (r: LiveCellRow)
    ensures
        r@ == c@,
{
    LiveCellRow {
        tx_hash: copy_bytes(&c.tx_hash),
        output_index: c.output_index,
        tx_index: c.tx_index,
        block_number: c.block_number,
        capacity: c.capacity,
        lock: c.lock.duplicate(),
        type_script: duplicate_opt_script(&c.type_script),
        data: copy_bytes(&c.data),
    }
}

/// Projects the outputs of the `t`-th transaction of `b`, each into a cell row
/// and its live-cell row.
pub fn project_outputs(
    b: &Block,
    t: usize,
    cells: &mut Vec<CellRow>,
    live: &mut Vec<LiveCellRow>,
)
    requires
        t < b.transactions@.len(),
        views(old(live)@) == views(old(cells)@).map_values(|c: CellRowView| live_of(c)),
    ensures
        views(final(cells)@) == views(old(cells)@) + cell_rows_of_tx(*b, t as int),
        views(final(live)@) == views(final(cells)@).map_values(|c: CellRowView| live_of(c)),
{
    let ghost c0 = views(cells@);
    let n = b.transactions[t].outputs.len();
    let mut k: usize = 0;
    while k < n
        invariant
            t < b.transactions@.len(),
            n == b.transactions@[t as int].outputs@.len(),
            k <= n,
            views(cells@) == c0 + cell_rows_of_tx(*b, t as int).take(k as int),
            views(live@) == views(cells@).map_values(|c: CellRowView| live_of(c)),
        decreases n - k,
    {
        let c = cell_row(b, t, k);
        let l = live_cell_of(&c);
        proof {
            lemma_views_push(cells@, c);
            lemma_views_push(live@, l);
        }
        cells.push(c);
        live.push(l);
        proof {
            assert(cell_rows_of_tx(*b, t as int).take(k + 1) =~= cell_rows_of_tx(
                *b,
                t as int,
            ).take(k as int).push(c@));
            assert(views(live@) =~= views(cells@).map_values(|c: CellRowView| live_of(c)));
        }
        k = k + 1;
    }
    assert(cell_rows_of_tx(*b, t as int).take(n as int) =~= cell_rows_of_tx(*b, t as int));
}

/// Appends copies of the outpoints spent by `inputs`.
pub fn emit_inputs(inputs: &Vec<OutPoint>, out_points: &mut Vec<OutPoint>)
    ensures
        views(final(out_points)@) == views(old(out_points)@) + views(inputs@),
{
    let ghost o0 = views(out_points@);
    let mut i: usize = 0;
    while i < inputs.len()
        invariant
            i <= inputs@.len(),
            views(out_points@) == o0 + views(inputs@).take(i as int),
        decreases inputs@.len() - i,
    {
        let op = inputs[i].duplicate();
        proof {
            lemma_views_push(out_points@, op);
        }
        out_points.push(op);
        assert(views(inputs@).take(i + 1) =~= views(inputs@).take(i as int).push(op@));
        i = i + 1;
    }
    assert(views(inputs@).take(i as int) =~= views(inputs@));
}

/// Every row derived from one chunk of blocks, before it is committed.
pub struct ChunkBatch {
    pub blocks: Vec<BlockRow>,
    pub transactions: Vec<TransactionRow>,
    pub cells: Vec<CellRow>,
    pub live_cells: Vec<LiveCellRow>,
    pub scripts: Vec<Script>,
    pub uncles: Vec<UncleRow>,
    pub canonical: Vec<CanonicalRow>,
    /// Outpoints spent by the chunk's transaction inputs, in order.
    pub out_points: Vec<OutPoint>,
}

impl ChunkBatch {
    pub fn new() -> (r: ChunkBatch)
        ensures
            r.blocks@.len() == 0,
            r.transactions@.len() == 0,
            r.cells@.len() == 0,
            r.live_cells@.len() == 0,
            r.scripts@.len() == 0,
            r.uncles@.len() == 0,
            r.canonical@.len() == 0,
            r.out_points@.len() == 0,
    {
        ChunkBatch {
            blocks: Vec::new(),
            transactions: Vec::new(),
            cells: Vec::new(),
            live_cells: Vec::new(),
            scripts: Vec::new(),
            uncles: Vec::new(),
            canonical: Vec::new(),
            out_points: Vec::new(),
        }
    }

    /// Each live-cell row is the projection of the cell row at its position.
    pub open spec fn live_matches_cells(&self) -> bool {
        views(self.live_cells@) == views(self.cells@).map_values(|c: CellRowView| live_of(c))
    }
}

/// Block rows of `bs`, one per block.
pub open spec fn block_rows_of(bs: Seq<Block>) -> Seq<BlockRowView> {
    Seq::new(bs.len(), |i: int| block_row_of(bs[i]))
}

pub open spec fn uncle_rows_of(bs: Seq<Block>) -> Seq<UncleRowView> {
    Seq::new(bs.len(), |i: int| uncle_row_of(bs[i]))
}

pub open spec fn canonical_rows_of(bs: Seq<Block>) -> Seq<CanonicalRowView> {
    Seq::new(bs.len(), |i: int| canonical_row_of(bs[i]))
}

pub open spec fn tx_rows_of(bs: Seq<Block>) -> Seq<TransactionRowView> {
    concat(Seq::new(bs.len(), |i: int| tx_rows_of_block(bs[i])))
}

pub open spec fn cell_rows_of(bs: Seq<Block>) -> Seq<CellRowView> {
    concat(Seq::new(bs.len(), |i: int| cell_rows_of_block(bs[i])))
}

pub open spec fn inputs_of(bs: Seq<Block>) -> Seq<OutPointView> {
    concat(Seq::new(bs.len(), |i: int| inputs_of_block(bs[i])))
}

/// Appends the rows of block `b` to `batch`: its block, uncle and canonical
/// rows, its transaction rows in index order, its cells and live cells in
/// output order, and the outpoints its inputs spend.
pub fn project_block(b: &Block, batch: &mut ChunkBatch)
    requires
        old(batch).live_matches_cells(),
    ensures
        final(batch).live_matches_cells(),
        views(final(batch).blocks@) == views(old(batch).blocks@).push(block_row_of(*b)),
        views(final(batch).uncles@) == views(old(batch).uncles@).push(uncle_row_of(*b)),
        views(final(batch).canonical@) == views(old(batch).canonical@).push(canonical_row_of(*b)),
        views(final(batch).transactions@) == views(old(batch).transactions@) + tx_rows_of_block(*b),
        views(final(batch).cells@) == views(old(batch).cells@) + cell_rows_of_block(*b),
        views(final(batch).out_points@) == views(old(batch).out_points@) + inputs_of_block(*b),
        final(batch).scripts == old(batch).scripts,
{
    let br = block_row(b);
    let ur = UncleRow { block_hash: copy_bytes(&b.hash), uncle_hashes: copy_bytes(&b.uncle_hashes) };
    let cr = CanonicalRow { block_number: b.number, block_hash: copy_bytes(&b.hash) };
    proof {
        lemma_views_push(batch.blocks@, br);
        lemma_views_push(batch.uncles@, ur);
        lemma_views_push(batch.canonical@, cr);
    }
    batch.blocks.push(br);
    batch.uncles.push(ur);
    batch.canonical.push(cr);
    let ghost t0 = views(batch.transactions@);
    let ghost c0 = views(batch.cells@);
    let ghost o0 = views(batch.out_points@);
    let n = b.transactions.len();
    let mut t: usize = 0;
    proof {
        assert(cell_rows_upto(*b, 0) =~= Seq::<CellRowView>::empty());
        assert(inputs_upto(*b, 0) =~= Seq::<OutPointView>::empty());
        assert(c0 + cell_rows_upto(*b, 0) =~= c0);
        assert(o0 + inputs_upto(*b, 0) =~= o0);
        assert(t0 + tx_rows_of_block(*b).take(0) =~= t0);
    }
    while t < n
        invariant
            n == b.transactions@.len(),
            t <= n,
            batch.live_matches_cells(),
            views(batch.blocks@) == views(old(batch).blocks@).push(block_row_of(*b)),
            views(batch.uncles@) == views(old(batch).uncles@).push(uncle_row_of(*b)),
            views(batch.canonical@) == views(old(batch).canonical@).push(canonical_row_of(*b)),
            batch.scripts == old(batch).scripts,
            views(batch.transactions@) == t0 + tx_rows_of_block(*b).take(t as int),
            views(batch.cells@) == c0 + cell_rows_upto(*b, t as int),
            views(batch.out_points@) == o0 + inputs_upto(*b, t as int),
        decreases n - t,
    {
        let tr = transaction_row(b, t);
        proof {
            lemma_views_push(batch.transactions@, tr);
            assert(tx_rows_of_block(*b).take(t + 1) =~= tx_rows_of_block(*b).take(t as int).push(
                tr@,
            ));
        }
        batch.transactions.push(tr);
        project_outputs(b, t, &mut batch.cells, &mut batch.live_cells);
        emit_inputs(&b.transactions[t].inputs, &mut batch.out_points);
        proof {
            lemma_cell_rows_step(*b, t as int);
            lemma_inputs_step(*b, t as int);
            assert(views(batch.cells@) =~= c0 + cell_rows_upto(*b, t + 1));
            assert(views(batch.out_points@) =~= o0 + inputs_upto(*b, t + 1));
        }
        t = t + 1;
    }
    assert(tx_rows_of_block(*b).take(n as int) =~= tx_rows_of_block(*b));
}

/// Position of a script with the content of `s` in `scripts`, if any.
pub fn find_script(scripts: &Vec<Script>, s: &Script) -> (r: Option<usize>)
    ensures
        match r {
            Some(i) => i < scripts@.len() && views(scripts@)[i as int] == s@,
            None => !views(scripts@).contains(s@),
        },
{
    let mut i: usize = 0;
    while i < scripts.len()
        invariant
            i <= scripts@.len(),
            forall|j: int| 0 <= j < i ==> views(scripts@)[j] != s@,
        decreases scripts@.len() - i,
    {
        if scripts[i].same_content(s) {
            return Some(i);
        }
        i = i + 1;
    }
    None
}

/// Adds a copy of `s` unless a script with the same content is already there.
pub fn insert_script(scripts: &mut Vec<Script>, s: &Script)
    ensures
        views(old(scripts)@).no_duplicates() ==> views(final(scripts)@).no_duplicates(),
        forall|x: ScriptView| #[trigger]
            views(final(scripts)@).contains(x) <==> (views(old(scripts)@).contains(x) || x == s@),
{
    match find_script(scripts, s) {
        Some(_) => {},
        None => {
            let c = s.duplicate();
            proof {
                lemma_views_push(scripts@, c);
            }
            scripts.push(c);
            assert(forall|x: ScriptView| #[trigger]
                views(scripts@).contains(x) <==> (views(old(scripts)@).contains(x) || x == s@)) by {
                assert forall|x: ScriptView| #[trigger]
                    views(scripts@).contains(x) implies (views(old(scripts)@).contains(x) || x
                        == s@) by {
                    let j = choose|j: int| 0 <= j < views(scripts@).len() && views(scripts@)[j] == x;
                    if j < views(old(scripts)@).len() {
                        assert(views(old(scripts)@)[j] == x);
                    }
                }
                assert forall|x: ScriptView| #[trigger]
                    views(old(scripts)@).contains(x) || x == s@ implies views(scripts@).contains(x) by {
                    if x == s@ {
                        assert(views(scripts@)[views(old(scripts)@).len() as int] == x);
                    } else {
                        let j = choose|j: int|
                            0 <= j < views(old(scripts)@).len() && views(old(scripts)@)[j] == x;
                        assert(views(scripts@)[j] == x);
                    }
                }
            }
        },
    }
}

proof fn lemma_script_of_cells_step(cs: Seq<CellRowView>, i: int, x: ScriptView)
    requires
        0 <= i < cs.len(),
    ensures
        script_of_cells(cs.take(i + 1), x) <==> (script_of_cells(cs.take(i), x) || cell_has_script(
            cs[i],
            x,
        )),
{
    let a = cs.take(i + 1);
    let p = cs.take(i);
    if script_of_cells(a, x) {
        let j = choose|j: int| 0 <= j < a.len() && #[trigger] cell_has_script(a[j], x);
        if j < i {
            assert(p[j] == a[j]);
        }
    }
    if script_of_cells(p, x) {
        let j = choose|j: int| 0 <= j < p.len() && #[trigger] cell_has_script(p[j], x);
        assert(a[j] == p[j]);
    }
    if cell_has_script(cs[i], x) {
        assert(a[i] == cs[i]);
    }
}

/// The distinct scripts (locks, and types where present) of `cells`, each once.
pub fn collect_scripts(cells: &Vec<CellRow>) -> (r: Vec<Script>)
    ensures
        views(r@).no_duplicates(),
        forall|x: ScriptView| #[trigger]
            views(r@).contains(x) <==> script_of_cells(views(cells@), x),
{
    let mut r: Vec<Script> = Vec::new();
    let mut i: usize = 0;
    while i < cells.len()
        invariant
            i <= cells@.len(),
            views(r@).no_duplicates(),
            forall|x: ScriptView| #[trigger]
                views(r@).contains(x) <==> script_of_cells(views(cells@).take(i as int), x),
        decreases cells@.len() - i,
    {
        let ghost r0 = views(r@);
        insert_script(&mut r, &cells[i].lock);
        let ghost r1 = views(r@);
        match &cells[i].type_script {
            Some(ts) => insert_script(&mut r, ts),
            None => {},
        }
        proof {
            assert forall|x: ScriptView| #[trigger]
                views(r@).contains(x) <==> script_of_cells(views(cells@).take(i + 1), x) by {
                lemma_script_of_cells_step(views(cells@), i as int, x);
                assert(views(cells@)[i as int] == cells@[i as int]@);
                assert(r1.contains(x) <==> r0.contains(x) || x == cells@[i as int].lock@);
            }
        }
        i = i + 1;
    }
    assert(views(cells@).take(i as int) =~= views(cells@));
    r
}

proof fn lemma_chunk_step(bs: Seq<Block>, i: int)
    requires
        0 <= i < bs.len(),
    ensures
        block_rows_of(bs.take(i + 1)) == block_rows_of(bs.take(i)).push(block_row_of(bs[i])),
        uncle_rows_of(bs.take(i + 1)) == uncle_rows_of(bs.take(i)).push(uncle_row_of(bs[i])),
        canonical_rows_of(bs.take(i + 1)) == canonical_rows_of(bs.take(i)).push(
            canonical_row_of(bs[i]),
        ),
        tx_rows_of(bs.take(i + 1)) == tx_rows_of(bs.take(i)) + tx_rows_of_block(bs[i]),
        cell_rows_of(bs.take(i + 1)) == cell_rows_of(bs.take(i)) + cell_rows_of_block(bs[i]),
        inputs_of(bs.take(i + 1)) == inputs_of(bs.take(i)) + inputs_of_block(bs[i]),
{
    let a = bs.take(i + 1);
    let p = bs.take(i);
    assert(block_rows_of(a) =~= block_rows_of(p).push(block_row_of(bs[i])));
    assert(uncle_rows_of(a) =~= uncle_rows_of(p).push(uncle_row_of(bs[i])));
    assert(canonical_rows_of(a) =~= canonical_rows_of(p).push(canonical_row_of(bs[i])));
    let ft = Seq::new(a.len(), |j: int| tx_rows_of_block(a[j]));
    assert(ft =~= Seq::new(p.len(), |j: int| tx_rows_of_block(p[j])).push(tx_rows_of_block(bs[i])));
    lemma_concat_push(Seq::new(p.len(), |j: int| tx_rows_of_block(p[j])), tx_rows_of_block(bs[i]));
    let fc = Seq::new(a.len(), |j: int| cell_rows_of_block(a[j]));
    assert(fc =~= Seq::new(p.len(), |j: int| cell_rows_of_block(p[j])).push(
        cell_rows_of_block(bs[i]),
    ));
    lemma_concat_push(
        Seq::new(p.len(), |j: int| cell_rows_of_block(p[j])),
        cell_rows_of_block(bs[i]),
    );
    let fi = Seq::new(a.len(), |j: int| inputs_of_block(a[j]));
    assert(fi =~= Seq::new(p.len(), |j: int| inputs_of_block(p[j])).push(inputs_of_block(bs[i])));
    lemma_concat_push(Seq::new(p.len(), |j: int| inputs_of_block(p[j])), inputs_of_block(bs[i]));
}

/// Projects a chunk of blocks into its rows. Rows follow block order, then
/// transaction order, then output order; scripts appear once per content.
pub fn project_chunk(blocks: &Vec<Block>) -> (r: ChunkBatch)
    ensures
        views(r.blocks@) == block_rows_of(blocks@),
        views(r.uncles@) == uncle_rows_of(blocks@),
        views(r.canonical@) == canonical_rows_of(blocks@),
        views(r.transactions@) == tx_rows_of(blocks@),
        views(r.cells@) == cell_rows_of(blocks@),
        r.live_matches_cells(),
        views(r.scripts@).no_duplicates(),
        forall|x: ScriptView| #[trigger]
            views(r.scripts@).contains(x) <==> script_of_cells(views(r.cells@), x),
        views(r.out_points@) == inputs_of(blocks@),
{
    let mut batch = ChunkBatch::new();
    let mut i: usize = 0;
    proof {
        let e = blocks@.take(0);
        assert(views(batch.blocks@) =~= block_rows_of(e));
        assert(views(batch.uncles@) =~= uncle_rows_of(e));
        assert(views(batch.canonical@) =~= canonical_rows_of(e));
        assert(views(batch.transactions@) =~= tx_rows_of(e));
        assert(views(batch.cells@) =~= cell_rows_of(e));
        assert(views(batch.out_points@) =~= inputs_of(e));
        assert(views(batch.live_cells@) =~= views(batch.cells@).map_values(
            |c: CellRowView| live_of(c),
        ));
    }
    while i < blocks.len()
        invariant
            i <= blocks@.len(),
            batch.live_matches_cells(),
            views(batch.blocks@) == block_rows_of(blocks@.take(i as int)),
            views(batch.uncles@) == uncle_rows_of(blocks@.take(i as int)),
            views(batch.canonical@) == canonical_rows_of(blocks@.take(i as int)),
            views(batch.transactions@) == tx_rows_of(blocks@.take(i as int)),
            views(batch.cells@) == cell_rows_of(blocks@.take(i as int)),
            views(batch.out_points@) == inputs_of(blocks@.take(i as int)),
        decreases blocks@.len() - i,
    {
        project_block(&blocks[i], &mut batch);
        proof {
            lemma_chunk_step(blocks@, i as int);
        }
        i = i + 1;
    }
    assert(blocks@.take(i as int) =~= blocks@);
    batch.scripts = collect_scripts(&batch.cells);
    batch
}

/// The transaction rows of a block are one per transaction, carry the block's
/// height and hash, and are indexed 0, 1, ... in transaction order.
pub proof fn lemma_tx_rows_indexed(b: Block)
    ensures
        tx_rows_of_block(b).len() == b.transactions@.len(),
        forall|t: int|
            0 <= t < b.transactions@.len() ==> (#[trigger] tx_rows_of_block(b)[t]).tx_index == t
                && tx_rows_of_block(b)[t].block_number == b.number && tx_rows_of_block(b)[t].block_hash
                == b.hash@,
{
}

/// Each projected output gives one cell row keyed by its transaction hash and
/// output index, and the live-cell row at the same position carries that key.
pub proof fn lemma_cell_and_live_keys(b: Block, t: int, cells: Seq<CellRowView>)
    requires
        0 <= t < b.transactions@.len(),
    ensures
        cell_rows_of_tx(b, t).len() == b.transactions@[t].outputs@.len(),
        forall|k: int|
            0 <= k < cell_rows_of_tx(b, t).len() ==> (#[trigger] cell_rows_of_tx(b, t)[k]).tx_hash
                == b.transactions@[t].hash@ && cell_rows_of_tx(b, t)[k].output_index == k,
        forall|i: int|
            0 <= i < cells.len() ==> (#[trigger] live_rows(cells)[i]).tx_hash == cells[i].tx_hash
                && live_rows(cells)[i].output_index == cells[i].output_index,
{
}

/// A script table without duplicate contents that holds the scripts of a set
/// of cells holds each shared lock script in exactly one row.
pub proof fn lemma_shared_lock_stored_once(
    table: Seq<ScriptView>,
    cells: Seq<CellRowView>,
    i: int,
    j: int,
)
    requires
        table.no_duplicates(),
        forall|x: ScriptView| #[trigger] script_of_cells(cells, x) ==> table.contains(x),
        0 <= i < cells.len(),
        0 <= j < cells.len(),
        cells[i].lock == cells[j].lock,
    ensures
        exists|k: int|
            0 <= k < table.len() && table[k] == cells[i].lock && forall|m: int|
                0 <= m < table.len() && #[trigger] table[m] == cells[i].lock ==> m == k,
{
    assert(cell_has_script(cells[i], cells[i].lock));
    assert(script_of_cells(cells, cells[i].lock));
    let k = choose|k: int| 0 <= k < table.len() && table[k] == cells[i].lock;
    assert(forall|m: int| 0 <= m < table.len() && #[trigger] table[m] == cells[i].lock ==> m == k);
}

} // verus!
