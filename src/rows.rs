//! Relational row shapes and, as spec functions, what each row of a chunk is.

use vstd::prelude::*;
use crate::model::{opt_script_view, Block, OutPointView, Script, ScriptView};

verus! {

pub struct BlockRow {
    pub number: u64,
    pub hash: Vec<u8>,
    pub timestamp: u64,
    pub epoch: u64,
    pub transaction_count: usize,
}

pub struct BlockRowView {
    pub number: u64,
    pub hash: Seq<u8>,
    pub timestamp: u64,
    pub epoch: u64,
    pub transaction_count: nat,
}

impl View for BlockRow {
    type V = BlockRowView;

    open spec fn view(&self) -> BlockRowView {
        BlockRowView {
            number: self.number,
            hash: self.hash@,
            timestamp: self.timestamp,
            epoch: self.epoch,
            transaction_count: self.transaction_count as nat,
        }
    }
}

pub struct TransactionRow {
    pub id: u128,
    pub block_number: u64,
    pub block_hash: Vec<u8>,
    pub tx_index: usize,
    pub tx_hash: Vec<u8>,
    pub timestamp: u64,
}

pub struct TransactionRowView {
    pub id: int,
    pub block_number: u64,
    pub block_hash: Seq<u8>,
    pub tx_index: nat,
    pub tx_hash: Seq<u8>,
    pub timestamp: u64,
}

impl View for TransactionRow {
    type V = TransactionRowView;

    open spec fn view(&self) -> TransactionRowView {
        TransactionRowView {
            id: self.id as int,
            block_number: self.block_number,
            block_hash: self.block_hash@,
            tx_index: self.tx_index as nat,
            tx_hash: self.tx_hash@,
            timestamp: self.timestamp,
        }
    }
}

/// Historical record of one output.
pub struct CellRow {
    pub tx_hash: Vec<u8>,
    pub output_index: usize,
    pub tx_index: usize,
    pub block_number: u64,
    pub block_hash: Vec<u8>,
    pub epoch: u64,
    pub capacity: u64,
    pub lock: Script,
    pub type_script: Option<Script>,
    pub data: Vec<u8>,
}

pub struct CellRowView {
    pub tx_hash: Seq<u8>,
    pub output_index: nat,
    pub tx_index: nat,
    pub block_number: u64,
    pub block_hash: Seq<u8>,
    pub epoch: u64,
    pub capacity: u64,
    pub lock: ScriptView,
    pub type_script: Option<ScriptView>,
    pub data: Seq<u8>,
}

impl View for CellRow {
    type V = CellRowView;

    open spec fn view(&self) -> CellRowView {
        CellRowView {
            tx_hash: self.tx_hash@,
            output_index: self.output_index as nat,
            tx_index: self.tx_index as nat,
            block_number: self.block_number,
            block_hash: self.block_hash@,
            epoch: self.epoch,
            capacity: self.capacity,
            lock: self.lock@,
            type_script: opt_script_view(self.type_script),
            data: self.data@,
        }
    }
}

/// An output that no input seen so far has spent.
pub struct LiveCellRow {
    pub tx_hash: Vec<u8>,
    pub output_index: usize,
    pub tx_index: usize,
    pub block_number: u64,
    pub capacity: u64,
    pub lock: Script,
    pub type_script: Option<Script>,
    pub data: Vec<u8>,
}

pub struct LiveCellRowView {
    pub tx_hash: Seq<u8>,
    pub output_index: nat,
    pub tx_index: nat,
    pub block_number: u64,
    pub capacity: u64,
    pub lock: ScriptView,
    pub type_script: Option<ScriptView>,
    pub data: Seq<u8>,
}

impl View for LiveCellRow {
    type V = LiveCellRowView;

    open spec fn view(&self) -> LiveCellRowView {
        LiveCellRowView {
            tx_hash: self.tx_hash@,
            output_index: self.output_index as nat,
            tx_index: self.tx_index as nat,
            block_number: self.block_number,
            capacity: self.capacity,
            lock: self.lock@,
            type_script: opt_script_view(self.type_script),
            data: self.data@,
        }
    }
}

pub struct UncleRow {
    pub block_hash: Vec<u8>,
    pub uncle_hashes: Vec<u8>,
}

pub struct UncleRowView {
    pub block_hash: Seq<u8>,
    pub uncle_hashes: Seq<u8>,
}

impl View for UncleRow {
    type V = UncleRowView;

    open spec fn view(&self) -> UncleRowView {
        UncleRowView { block_hash: self.block_hash@, uncle_hashes: self.uncle_hashes@ }
    }
}

pub struct CanonicalRow {
    pub block_number: u64,
    pub block_hash: Vec<u8>,
}

pub struct CanonicalRowView {
    pub block_number: u64,
    pub block_hash: Seq<u8>,
}

impl View for CanonicalRow {
    type V = CanonicalRowView;

    open spec fn view(&self) -> CanonicalRowView {
        CanonicalRowView { block_number: self.block_number, block_hash: self.block_hash@ }
    }
}

/// The views of a sequence of rows.
pub open spec fn views<T: View>(s: Seq<T>) -> Seq<T::V> {
    s.map_values(|r: T| r@)
}

/// Concatenation of a sequence of sequences, in order.
pub open spec fn concat<A>(s: Seq<Seq<A>>) -> Seq<A>
    decreases s.len(),
{
    if s.len() == 0 {
        Seq::empty()
    } else {
        concat(s.drop_last()) + s.last()
    }
}

/// Identifier of the `seq`-th item of a block at `height`: distinct for
/// distinct (height, seq) pairs.
pub open spec fn generated_id(height: u64, seq: nat) -> int {
    height as int * 0x1_0000_0000_0000_0000 + seq as int
}

pub open spec fn block_row_of(b: Block) -> BlockRowView {
    BlockRowView {
        number: b.number,
        hash: b.hash@,
        timestamp: b.timestamp,
        epoch: b.epoch,
        transaction_count: b.transactions@.len(),
    }
}

pub open spec fn uncle_row_of(b: Block) -> UncleRowView {
    UncleRowView { block_hash: b.hash@, uncle_hashes: b.uncle_hashes@ }
}

pub open spec fn canonical_row_of(b: Block) -> CanonicalRowView {
    CanonicalRowView { block_number: b.number, block_hash: b.hash@ }
}

/// The row of the `t`-th transaction of `b`.
pub open spec fn tx_row_of(b: Block, t: int) -> TransactionRowView {
    TransactionRowView {
        id: generated_id(b.number, t as nat),
        block_number: b.number,
        block_hash: b.hash@,
        tx_index: t as nat,
        tx_hash: b.transactions@[t].hash@,
        timestamp: b.timestamp,
    }
}

pub open spec fn tx_rows_of_block(b: Block) -> Seq<TransactionRowView> {
    Seq::new(b.transactions@.len(), |t: int| tx_row_of(b, t))
}

/// The row of output `k` of the `t`-th transaction of `b`.
pub open spec fn cell_row_of(b: Block, t: int, k: int) -> CellRowView {
    let tx = b.transactions@[t];
    let out = tx.outputs@[k];
    CellRowView {
        tx_hash: tx.hash@,
        output_index: k as nat,
        tx_index: t as nat,
        block_number: b.number,
        block_hash: b.hash@,
        epoch: b.epoch,
        capacity: out.capacity,
        lock: out.lock@,
        type_script: opt_script_view(out.type_script),
        data: out.data@,
    }
}

pub open spec fn cell_rows_of_tx(b: Block, t: int) -> Seq<CellRowView> {
    Seq::new(b.transactions@[t].outputs@.len(), |k: int| cell_row_of(b, t, k))
}

/// Cell rows of the first `n` transactions of `b`.
pub open spec fn cell_rows_upto(b: Block, n: int) -> Seq<CellRowView> {
    concat(Seq::new(n as nat, |t: int| cell_rows_of_tx(b, t)))
}

pub open spec fn cell_rows_of_block(b: Block) -> Seq<CellRowView> {
    cell_rows_upto(b, b.transactions@.len() as int)
}

/// Outpoints consumed by the first `n` transactions of `b`, in order.
pub open spec fn inputs_upto(b: Block, n: int) -> Seq<OutPointView> {
    concat(Seq::new(n as nat, |t: int| views(b.transactions@[t].inputs@)))
}

pub open spec fn inputs_of_block(b: Block) -> Seq<OutPointView> {
    inputs_upto(b, b.transactions@.len() as int)
}

/// The live-cell projection of a cell row.
pub open spec fn live_of(c: CellRowView) -> LiveCellRowView {
    LiveCellRowView {
        tx_hash: c.tx_hash,
        output_index: c.output_index,
        tx_index: c.tx_index,
        block_number: c.block_number,
        capacity: c.capacity,
        lock: c.lock,
        type_script: c.type_script,
        data: c.data,
    }
}

/// The live-cell projections of `cs`, position by position.
pub open spec fn live_rows(cs: Seq<CellRowView>) -> Seq<LiveCellRowView> {
    cs.map_values(|c: CellRowView| live_of(c))
}

/// `x` is the lock or the type script of cell `c`.
pub open spec fn cell_has_script(c: CellRowView, x: ScriptView) -> bool {
    c.lock == x || c.type_script == Some(x)
}

/// `x` is the lock or the type script of some cell of `cs`.
pub open spec fn script_of_cells(cs: Seq<CellRowView>, x: ScriptView) -> bool {
    exists|i: int| 0 <= i < cs.len() && #[trigger] cell_has_script(cs[i], x)
}

pub proof fn lemma_concat_push<A>(s: Seq<Seq<A>>, x: Seq<A>)
    ensures
        concat(s.push(x)) == concat(s) + x,
{
    assert(s.push(x).drop_last() =~= s);
}

pub proof fn lemma_concat_append<A>(s: Seq<Seq<A>>, t: Seq<Seq<A>>)
    ensures
        concat(s + t) == concat(s) + concat(t),
    decreases t.len(),
{
    if t.len() == 0 {
        assert(s + t =~= s);
        assert(concat(s) + concat(t) =~= concat(s));
    } else {
        assert((s + t).drop_last() =~= s + t.drop_last());
        assert((s + t).last() == t.last());
        lemma_concat_append(s, t.drop_last());
        assert(concat(s + t) =~= concat(s) + concat(t));
    }
}

/// Part `i` of `s` sits in `concat(s)` right after the parts before it.
pub proof fn lemma_concat_part<A>(s: Seq<Seq<A>>, i: int)
    requires
        0 <= i < s.len(),
    ensures
        concat(s).subrange(
            concat(s.take(i)).len() as int,
            (concat(s.take(i)).len() + s[i].len()) as int,
        ) == s[i],
        concat(s.take(i)).len() + s[i].len() <= concat(s).len(),
{
    let t = s.take(i + 1);
    assert(s =~= t + s.skip(i + 1));
    lemma_concat_append(t, s.skip(i + 1));
    assert(t.drop_last() =~= s.take(i));
    assert(t.last() == s[i]);
    let o = concat(s.take(i)).len() as int;
    assert(concat(s).subrange(o, o + s[i].len()) =~= s[i]);
}

pub proof fn lemma_views_push<T: View>(s: Seq<T>, x: T)
    ensures
        views(s.push(x)) == views(s).push(x@),
{
    assert(views(s.push(x)) =~= views(s).push(x@));
}

pub proof fn lemma_cell_rows_step(b: Block, n: int)
    requires
        0 <= n,
    ensures
        cell_rows_upto(b, n + 1) == cell_rows_upto(b, n) + cell_rows_of_tx(b, n),
{
    let f = |t: int| cell_rows_of_tx(b, t);
    assert(Seq::new((n + 1) as nat, f) =~= Seq::new(n as nat, f).push(f(n)));
    lemma_concat_push(Seq::new(n as nat, f), f(n));
}

pub proof fn lemma_inputs_step(b: Block, n: int)
    requires
        0 <= n,
    ensures
        inputs_upto(b, n + 1) == inputs_upto(b, n) + views(b.transactions@[n].inputs@),
{
    let f = |t: int| views(b.transactions@[t].inputs@);
    assert(Seq::new((n + 1) as nat, f) =~= Seq::new(n as nat, f).push(f(n)));
    lemma_concat_push(Seq::new(n as nat, f), f(n));
}

} // verus!
