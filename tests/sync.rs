use xsql::model::{Block, CellOutput, OutPoint, Script, Transaction};
use xsql::pipeline::{commit_chunk, sync_blocks_process, BlockSource, MemorySource, SyncError};
use xsql::projection::{generate_id, project_chunk};
use xsql::reconciler::{handle_out_point, Reconciler};
use xsql::store::Tables;

fn lock(arg: u8) -> Script {
    Script { code_hash: vec![7; 32], hash_type: 1, args: vec![arg] }
}

fn output(capacity: u64, arg: u8, type_script: Option<Script>) -> CellOutput {
    CellOutput { capacity, lock: lock(arg), type_script, data: vec![] }
}

fn tx(hash: u8, inputs: Vec<OutPoint>, outputs: Vec<CellOutput>) -> Transaction {
    Transaction { hash: vec![hash; 32], inputs, outputs }
}

fn block(number: u64, transactions: Vec<Transaction>) -> Block {
    Block {
        number,
        hash: vec![number as u8; 32],
        timestamp: 1000 + number,
        epoch: 1,
        uncle_hashes: vec![],
        transactions,
    }
}

fn two_block_chain() -> Vec<Block> {
    let b10 = block(10, vec![tx(0xa0, vec![], vec![output(100, 1, None)])]);
    let spend = OutPoint { tx_hash: vec![0xa0; 32], index: 0 };
    let b11 = block(11, vec![tx(0xb0, vec![spend], vec![])]);
    vec![b10, b11]
}

#[test]
fn two_blocks_spend_and_reconcile() {
    let mut store = Tables::new();
    let mut source = MemorySource::new(two_block_chain());
    let mut out_points = Vec::new();
    let r = sync_blocks_process(&mut store, &mut source, &vec![10, 11], &mut out_points, 2);
    assert_eq!(r, Ok(Some(11)));
    assert_eq!(store.blocks.len(), 2);
    assert_eq!(store.transactions.len(), 2);
    assert_eq!(store.cells.len(), 1);
    assert_eq!(store.live_cells.len(), 1);
    assert_eq!(out_points.len(), 1);
    let mut rec = Reconciler::new();
    for op in out_points {
        handle_out_point(&mut rec, &mut store, op);
    }
    assert_eq!(store.live_cells.len(), 0);
    assert_eq!(rec.pending_count(), 0);
    assert_eq!(store.cells.len(), 1);
}

#[test]
fn two_blocks_two_outputs_give_two_cells() {
    let b10 = block(10, vec![tx(0xa0, vec![], vec![output(100, 1, None)])]);
    let spend = OutPoint { tx_hash: vec![0xa0; 32], index: 0 };
    let b11 = block(11, vec![tx(0xb0, vec![spend], vec![output(90, 2, None)])]);
    let mut store = Tables::new();
    let mut source = MemorySource::new(vec![b10, b11]);
    let mut out_points = Vec::new();
    let r = sync_blocks_process(&mut store, &mut source, &vec![10, 11], &mut out_points, 2);
    assert_eq!(r, Ok(Some(11)));
    assert_eq!(store.blocks.len(), 2);
    assert_eq!(store.transactions.len(), 2);
    assert_eq!(store.cells.len(), 2);
    let mut rec = Reconciler::new();
    for op in out_points {
        handle_out_point(&mut rec, &mut store, op);
    }
    assert_eq!(store.live_cells.len(), 1);
    assert_eq!(store.live_cells[0].tx_hash, vec![0xb0; 32]);
}

#[test]
fn empty_height_list_writes_nothing() {
    let mut store = Tables::new();
    let mut source = MemorySource::new(two_block_chain());
    let mut out_points = Vec::new();
    let r = sync_blocks_process(&mut store, &mut source, &vec![], &mut out_points, 2);
    assert_eq!(r, Ok(None));
    assert_eq!(store.blocks.len(), 0);
    assert_eq!(store.transactions.len(), 0);
    assert_eq!(store.cells.len(), 0);
    assert_eq!(store.live_cells.len(), 0);
    assert_eq!(store.scripts.len(), 0);
    assert!(out_points.is_empty());
}

#[test]
fn one_block_row_per_height_and_max() {
    let blocks: Vec<Block> = (1..=5).map(|n| block(n, vec![])).collect();
    let mut store = Tables::new();
    let mut source = MemorySource::new(blocks);
    let mut out_points = Vec::new();
    let r = sync_blocks_process(&mut store, &mut source, &vec![3, 5, 1, 2, 4], &mut out_points, 2);
    assert_eq!(r, Ok(Some(5)));
    let numbers: Vec<u64> = store.blocks.iter().map(|b| b.number).collect();
    assert_eq!(numbers, vec![3, 5, 1, 2, 4]);
    assert_eq!(store.canonical.len(), 5);
    assert_eq!(store.uncles.len(), 5);
    assert_eq!(store.canonical[1].block_number, 5);
}

#[test]
fn missing_block_is_a_fetch_error() {
    let mut store = Tables::new();
    let mut source = MemorySource::new(two_block_chain());
    let mut out_points = Vec::new();
    let r = sync_blocks_process(&mut store, &mut source, &vec![10, 12], &mut out_points, 2);
    assert_eq!(r, Err(SyncError::Fetch));
    assert_eq!(store.blocks.len(), 0);
}

#[test]
fn failed_chunk_leaves_earlier_chunks_committed() {
    let mut store = Tables::new();
    let mut source = MemorySource::new(two_block_chain());
    let mut out_points = Vec::new();
    let r = sync_blocks_process(&mut store, &mut source, &vec![10, 99], &mut out_points, 1);
    assert_eq!(r, Err(SyncError::Fetch));
    assert_eq!(store.blocks.len(), 1);
    assert_eq!(store.blocks[0].number, 10);
}

#[test]
fn transaction_indices_start_at_zero() {
    let b = block(
        7,
        vec![
            tx(1, vec![], vec![output(1, 1, None)]),
            tx(2, vec![], vec![]),
            tx(3, vec![], vec![output(1, 2, None), output(2, 3, None)]),
        ],
    );
    let batch = project_chunk(&vec![b]);
    let idx: Vec<usize> = batch.transactions.iter().map(|t| t.tx_index).collect();
    assert_eq!(idx, vec![0, 1, 2]);
    assert!(batch.transactions.iter().all(|t| t.block_number == 7));
    assert_eq!(batch.transactions[2].id, (7u128 << 64) + 2);
    assert_eq!(batch.blocks[0].transaction_count, 3);
}

#[test]
fn generated_id_packs_height_and_sequence() {
    assert_eq!(generate_id(0, 0), 0);
    assert_eq!(generate_id(1, 5), (1u128 << 64) + 5);
    assert_eq!(generate_id(u64::MAX, usize::MAX), u128::MAX);
}

#[test]
fn each_output_gives_cell_and_live_cell_with_same_key() {
    let b = block(3, vec![tx(9, vec![], vec![output(1, 1, None), output(2, 2, None)])]);
    let batch = project_chunk(&vec![b]);
    assert_eq!(batch.cells.len(), 2);
    assert_eq!(batch.live_cells.len(), 2);
    for (c, l) in batch.cells.iter().zip(batch.live_cells.iter()) {
        assert_eq!(c.tx_hash, l.tx_hash);
        assert_eq!(c.output_index, l.output_index);
        assert_eq!(c.capacity, l.capacity);
    }
    assert_eq!(batch.cells[1].output_index, 1);
    assert_eq!(batch.cells[1].tx_hash, vec![9; 32]);
}

#[test]
fn shared_lock_scripts_are_stored_once() {
    let ty = Script { code_hash: vec![3; 32], hash_type: 0, args: vec![] };
    let b1 = block(1, vec![tx(1, vec![], vec![output(1, 5, None), output(2, 5, Some(ty))])]);
    let b2 = block(2, vec![tx(2, vec![], vec![output(3, 5, None), output(4, 6, None)])]);
    let mut store = Tables::new();
    let mut source = MemorySource::new(vec![b1, b2]);
    let mut out_points = Vec::new();
    let r = sync_blocks_process(&mut store, &mut source, &vec![1, 2], &mut out_points, 1);
    assert_eq!(r, Ok(Some(2)));
    assert_eq!(store.cells.len(), 4);
    assert_eq!(store.scripts.len(), 3);
    let with_arg_5 = store.scripts.iter().filter(|s| s.args == vec![5]).count();
    assert_eq!(with_arg_5, 1);
}

#[test]
fn outpoints_follow_block_and_transaction_order() {
    let op = |h: u8, i: u32| OutPoint { tx_hash: vec![h; 32], index: i };
    let b = block(4, vec![tx(1, vec![op(8, 0), op(8, 1)], vec![]), tx(2, vec![op(9, 3)], vec![])]);
    let batch = project_chunk(&vec![b]);
    let got: Vec<(u8, u32)> = batch.out_points.iter().map(|o| (o.tx_hash[0], o.index)).collect();
    assert_eq!(got, vec![(8, 0), (8, 1), (9, 3)]);
}

#[test]
fn chunk_with_wrong_heights_is_rejected_unchanged() {
    let mut store = Tables::new();
    let mut out_points = Vec::new();
    let r = commit_chunk(&mut store, &vec![10, 12], two_block_chain(), &mut out_points);
    assert_eq!(r, Err(SyncError::Fetch));
    assert_eq!(store.blocks.len(), 0);
    assert_eq!(store.cells.len(), 0);
    assert!(out_points.is_empty());
    let r = commit_chunk(&mut store, &vec![10, 11], two_block_chain(), &mut out_points);
    assert_eq!(r, Ok(()));
    assert_eq!(store.blocks.len(), 2);
    assert_eq!(out_points.len(), 1);
    assert_eq!(out_points[0].tx_hash, vec![0xa0; 32]);
}

struct Reordering(Vec<Block>);

impl BlockSource for Reordering {
    fn pull_blocks(&mut self, _heights: &Vec<u64>) -> Result<Vec<Block>, SyncError> {
        let mut v = std::mem::take(&mut self.0);
        v.reverse();
        Ok(v)
    }
}

#[test]
fn source_answering_other_order_is_accepted() {
    let mut store = Tables::new();
    let mut source = Reordering(two_block_chain());
    let mut out_points = Vec::new();
    let r = sync_blocks_process(&mut store, &mut source, &vec![10, 11], &mut out_points, 5);
    assert_eq!(r, Ok(Some(11)));
    assert_eq!(store.blocks.len(), 2);
    assert_eq!(store.blocks[0].number, 11);
    assert_eq!(store.blocks[1].number, 10);
    assert_eq!(store.cells.len(), 1);
    assert_eq!(out_points.len(), 1);
}

#[test]
fn permuted_chunk_commits() {
    let mut store = Tables::new();
    let mut out_points = Vec::new();
    let r = commit_chunk(&mut store, &vec![11, 10], two_block_chain(), &mut out_points);
    assert_eq!(r, Ok(()));
    assert_eq!(store.blocks.len(), 2);
}

#[test]
fn chunk_with_missing_or_extra_height_is_rejected() {
    let mut store = Tables::new();
    let mut out_points = Vec::new();
    let r = commit_chunk(&mut store, &vec![10, 10], two_block_chain(), &mut out_points);
    assert_eq!(r, Err(SyncError::Fetch));
    let r = commit_chunk(&mut store, &vec![10], two_block_chain(), &mut out_points);
    assert_eq!(r, Err(SyncError::Fetch));
    let r = commit_chunk(&mut store, &vec![10, 11, 12], two_block_chain(), &mut out_points);
    assert_eq!(r, Err(SyncError::Fetch));
    assert_eq!(store.blocks.len(), 0);
    assert!(out_points.is_empty());
}

#[test]
fn repeated_live_cell_key_is_a_store_error() {
    let mut store = Tables::new();
    let mut out_points = Vec::new();
    let first = vec![block(1, vec![tx(0xc0, vec![], vec![output(5, 1, None)])])];
    assert_eq!(commit_chunk(&mut store, &vec![1], first, &mut out_points), Ok(()));
    let again = vec![block(2, vec![tx(0xc0, vec![], vec![output(6, 1, None)])])];
    let r = commit_chunk(&mut store, &vec![2], again, &mut out_points);
    assert_eq!(r, Err(SyncError::Store));
    assert_eq!(store.blocks.len(), 1);
    assert_eq!(store.live_cells.len(), 1);
    let twice = vec![block(3, vec![tx(0xd0, vec![], vec![]), tx(0xd0, vec![], vec![output(1, 1, None)])])];
    assert_eq!(commit_chunk(&mut store, &vec![3], twice, &mut out_points), Ok(()));
    let dup = vec![block(4, vec![tx(0xe0, vec![], vec![output(1, 1, None)]), tx(0xe0, vec![], vec![output(1, 1, None)])])];
    assert_eq!(commit_chunk(&mut store, &vec![4], dup, &mut out_points), Err(SyncError::Store));
}

#[test]
fn batch_size_larger_than_list() {
    let mut store = Tables::new();
    let mut source = MemorySource::new(two_block_chain());
    let mut out_points = Vec::new();
    let r = sync_blocks_process(&mut store, &mut source, &vec![11, 10], &mut out_points, 100);
    assert_eq!(r, Ok(Some(11)));
    assert_eq!(store.blocks[0].number, 11);
    assert_eq!(store.blocks[1].number, 10);
}

#[test]
fn refused_chunk_still_hands_on_its_outpoints() {
    let mut store = Tables::new();
    let mut out_points = Vec::new();
    let first = vec![block(1, vec![tx(0xc0, vec![], vec![output(5, 1, None)])])];
    assert_eq!(commit_chunk(&mut store, &vec![1], first, &mut out_points), Ok(()));
    let spend = OutPoint { tx_hash: vec![0x11; 32], index: 3 };
    let again = vec![block(2, vec![tx(0xc0, vec![spend], vec![output(6, 1, None)])])];
    let r = commit_chunk(&mut store, &vec![2], again, &mut out_points);
    assert_eq!(r, Err(SyncError::Store));
    assert_eq!(store.blocks.len(), 1);
    assert_eq!(out_points.len(), 1);
    assert_eq!(out_points[0].tx_hash, vec![0x11; 32]);
    assert_eq!(out_points[0].index, 3);
}

#[test]
fn stored_height_is_refused() {
    let mut store = Tables::new();
    let mut out_points = Vec::new();
    assert_eq!(commit_chunk(&mut store, &vec![5], vec![block(5, vec![])], &mut out_points), Ok(()));
    let r = commit_chunk(&mut store, &vec![5], vec![block(5, vec![])], &mut out_points);
    assert_eq!(r, Err(SyncError::Store));
    assert_eq!(store.blocks.len(), 1);
    assert_eq!(store.canonical.len(), 1);
    let r = commit_chunk(&mut store, &vec![6, 6], vec![block(6, vec![]), block(6, vec![])], &mut out_points);
    assert_eq!(r, Err(SyncError::Store));
    assert_eq!(store.canonical.len(), 1);
}

#[test]
fn sync_over_stored_height_fails_after_earlier_chunks() {
    let mut store = Tables::new();
    let mut out_points = Vec::new();
    let mut source = MemorySource::new(vec![block(1, vec![]), block(2, vec![])]);
    assert_eq!(sync_blocks_process(&mut store, &mut source, &vec![2], &mut out_points, 1), Ok(Some(2)));
    let r = sync_blocks_process(&mut store, &mut source, &vec![1, 2], &mut out_points, 1);
    assert_eq!(r, Err(SyncError::Fetch));
    assert_eq!(store.blocks.len(), 2);
    assert_eq!(store.blocks[1].number, 1);
}
