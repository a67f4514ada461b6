use xsql::model::{Block, CellOutput, OutPoint, Script, Transaction};
use xsql::pipeline::{sync_blocks_process, MemorySource};
use xsql::reconciler::{handle_out_point, Reconciler, DEFAULT_RETRY_THRESHOLD, DEFAULT_THRESHOLD_STEP};
use xsql::store::Tables;

fn block_with_outputs(number: u64, tx_hash: u8, n: usize) -> Block {
    let outputs = (0..n)
        .map(|_| CellOutput {
            capacity: 1,
            lock: Script { code_hash: vec![1; 32], hash_type: 0, args: vec![] },
            type_script: None,
            data: vec![],
        })
        .collect();
    Block {
        number,
        hash: vec![number as u8; 32],
        timestamp: 0,
        epoch: 0,
        uncle_hashes: vec![],
        transactions: vec![Transaction { hash: vec![tx_hash; 32], inputs: vec![], outputs }],
    }
}

fn synced(blocks: Vec<Block>, heights: Vec<u64>) -> Tables {
    let mut store = Tables::new();
    let mut source = MemorySource::new(blocks);
    let mut out_points = Vec::new();
    sync_blocks_process(&mut store, &mut source, &heights, &mut out_points, 10).unwrap();
    store
}

fn op(h: u8, index: u32) -> OutPoint {
    OutPoint { tx_hash: vec![h; 32], index }
}

#[test]
fn new_reconciler_uses_default_threshold() {
    let rec = Reconciler::new();
    assert_eq!(rec.threshold, 5000);
    assert_eq!(rec.step, 1000);
    assert_eq!(DEFAULT_RETRY_THRESHOLD, 5000);
    assert_eq!(DEFAULT_THRESHOLD_STEP, 1000);
    assert_eq!(rec.pending_count(), 0);
}

#[test]
fn same_outpoint_twice_deletes_once() {
    let mut store = synced(vec![block_with_outputs(1, 5, 2)], vec![1]);
    let mut rec = Reconciler::new();
    handle_out_point(&mut rec, &mut store, op(5, 0));
    assert_eq!(store.live_cells.len(), 1);
    assert_eq!(rec.pending_count(), 0);
    handle_out_point(&mut rec, &mut store, op(5, 0));
    assert_eq!(store.live_cells.len(), 1);
    assert_eq!(rec.pending_count(), 1);
    assert_eq!(store.live_cells[0].output_index, 1);
}

#[test]
fn delete_reports_affected_rows() {
    let mut store = synced(vec![block_with_outputs(1, 5, 3)], vec![1]);
    assert_eq!(store.delete_live_cell(&vec![5; 32], 1), 1);
    assert_eq!(store.delete_live_cell(&vec![5; 32], 1), 0);
    assert_eq!(store.delete_live_cell(&vec![6; 32], 0), 0);
    assert_eq!(store.live_cells.len(), 2);
}

#[test]
fn early_outpoint_resolved_by_drain_after_commit() {
    let mut store = Tables::new();
    let mut rec = Reconciler::with_threshold(3, 2);
    handle_out_point(&mut rec, &mut store, op(5, 0));
    handle_out_point(&mut rec, &mut store, op(5, 1));
    assert_eq!(rec.pending_count(), 2);
    assert_eq!(rec.threshold, 3);

    let mut source = MemorySource::new(vec![block_with_outputs(1, 5, 2)]);
    let mut out_points = Vec::new();
    sync_blocks_process(&mut store, &mut source, &vec![1], &mut out_points, 1).unwrap();
    assert_eq!(store.live_cells.len(), 2);

    handle_out_point(&mut rec, &mut store, op(9, 9));
    assert_eq!(store.live_cells.len(), 0);
    assert_eq!(rec.threshold, 5);
    let left = rec.finish();
    assert_eq!(left.len(), 1);
    assert_eq!(left[0].tx_hash, vec![9; 32]);
    assert_eq!(left[0].index, 9);
}

#[test]
fn pending_kept_below_default_threshold() {
    let mut store = Tables::new();
    let mut rec = Reconciler::new();
    for i in 0..4999u32 {
        handle_out_point(&mut rec, &mut store, op(1, i));
    }
    assert_eq!(rec.pending_count(), 4999);
    assert_eq!(rec.threshold, 5000);
    handle_out_point(&mut rec, &mut store, op(1, 4999));
    assert_eq!(rec.pending_count(), 5000);
    assert_eq!(rec.threshold, 6000);
}

#[test]
fn unresolved_outpoints_are_observable() {
    let mut store = Tables::new();
    let mut rec = Reconciler::new();
    handle_out_point(&mut rec, &mut store, op(2, 0));
    let left = rec.finish();
    assert_eq!(left.len(), 1);
    assert_eq!(left[0].tx_hash, vec![2; 32]);
}

#[test]
fn event_steps_drive_a_drain() {
    let mut rec = Reconciler::with_threshold(2, 10);
    assert!(!rec.record_attempt(op(1, 0), 1));
    assert_eq!(rec.pending_count(), 0);
    assert!(!rec.record_attempt(op(1, 1), 0));
    assert!(rec.record_attempt(op(1, 2), 2));
    let items = rec.start_drain();
    assert_eq!(items.len(), 2);
    assert_eq!(items[0].index, 1);
    assert_eq!(items[1].index, 2);
    assert_eq!(rec.pending_count(), 0);
    assert!(!rec.record_attempt(op(1, 2), 0));
    rec.end_drain();
    assert_eq!(rec.threshold, 12);
    assert_eq!(rec.pending_count(), 1);
}

#[test]
fn threshold_growth_saturates() {
    let mut rec = Reconciler::with_threshold(usize::MAX - 1, 1000);
    rec.end_drain();
    assert_eq!(rec.threshold, usize::MAX);
}
