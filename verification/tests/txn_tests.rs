use helix_db::edge_key::encode;
use helix_db::txn::{CommitAction, TxnEvent, TxnState, VecTxn, VectorError, INITIAL_CAPACITY};
use helix_db::vector::HVector;
use std::sync::Arc;

fn v(id: u128) -> Arc<HVector<()>> {
    Arc::new(HVector::new(id, 0, ()))
}

#[test]
fn state_machine_follows_the_table() {
    let open = TxnState::Open;
    let committing = TxnState::Committing;
    let committed = TxnState::Committed;
    let aborted = TxnState::Aborted;
    assert_eq!(open.on(TxnEvent::CommitEntered), committing);
    assert_eq!(open.on(TxnEvent::Dropped), aborted);
    assert_eq!(open.on(TxnEvent::PutSucceeded), open);
    assert_eq!(open.on(TxnEvent::PutFailed), open);
    assert_eq!(open.on(TxnEvent::StoreCommitted), open);
    assert_eq!(open.on(TxnEvent::StoreCommitFailed), open);
    assert_eq!(committing.on(TxnEvent::PutSucceeded), committing);
    assert_eq!(committing.on(TxnEvent::CommitEntered), committing);
    assert_eq!(committing.on(TxnEvent::StoreCommitted), committed);
    assert_eq!(committing.on(TxnEvent::PutFailed), aborted);
    assert_eq!(committing.on(TxnEvent::StoreCommitFailed), aborted);
    assert_eq!(committing.on(TxnEvent::Dropped), aborted);
    for e in [
        TxnEvent::CommitEntered,
        TxnEvent::PutSucceeded,
        TxnEvent::PutFailed,
        TxnEvent::StoreCommitted,
        TxnEvent::StoreCommitFailed,
        TxnEvent::Dropped,
    ] {
        assert_eq!(committed.on(e), committed);
        assert_eq!(aborted.on(e), aborted);
    }
}

#[test]
fn new_transaction_has_an_empty_overlay_and_keeps_the_handle() {
    let txn: VecTxn<u32, ()> = VecTxn::new(77);
    assert_eq!(*txn.get_rtxn(), 77);
    assert_eq!(txn.cache.len(), 0);
    assert!(txn.get_neighbors(1, 0).is_none());
    assert_eq!(INITIAL_CAPACITY, 256);
}

#[test]
fn write_access_reaches_the_handle_and_not_the_overlay() {
    let mut txn: VecTxn<Vec<u8>, ()> = VecTxn::new(Vec::new());
    txn.set_neighbors(v(1), 0, &vec![v(2)]);
    txn.get_wtxn().push(5);
    txn.get_wtxn().push(6);
    assert_eq!(txn.get_rtxn(), &vec![5u8, 6]);
    assert_eq!(txn.get_neighbors(1, 0).unwrap().len(), 1);
    let (handle, plan) = txn.commit();
    assert_eq!(handle, vec![5u8, 6]);
    assert_eq!(plan.len(), 2);
}

#[test]
fn plan_hands_out_every_key_then_the_store_commit() {
    let mut txn: VecTxn<(), ()> = VecTxn::new(());
    txn.set_neighbors(v(1), 0, &vec![v(2)]);
    let (_, mut plan) = txn.commit();
    assert_eq!(plan.state(), TxnState::Committing);
    assert_eq!(plan.len(), 2);
    assert_eq!(plan.written(), 0);

    let first = match plan.action() {
        CommitAction::Put(key) => key.clone(),
        other => panic!("expected a put, got {:?}", other),
    };
    plan.record(true);
    assert_eq!(plan.written(), 1);
    assert_eq!(plan.state(), TxnState::Committing);

    let second = match plan.action() {
        CommitAction::Put(key) => key.clone(),
        other => panic!("expected a put, got {:?}", other),
    };
    plan.record(true);
    assert_eq!(plan.written(), 2);
    assert_ne!(first, second);
    let mut both = vec![first, second];
    both.sort();
    assert_eq!(both, vec![encode(1, 0, 2), encode(2, 0, 1)]);

    assert_eq!(plan.action(), CommitAction::CommitStore);
    plan.record(true);
    assert_eq!(plan.state(), TxnState::Committed);
    assert_eq!(plan.action(), CommitAction::Finished(Ok(())));
    plan.record(false);
    assert_eq!(plan.state(), TxnState::Committed);
    assert_eq!(plan.written(), 2);
}

#[test]
fn failed_put_aborts_and_names_the_key() {
    let mut txn: VecTxn<(), ()> = VecTxn::new(());
    txn.set_neighbors(v(1), 0, &vec![v(2)]);
    let (_, mut plan) = txn.commit();
    plan.record(true);
    plan.record(false);
    assert_eq!(plan.state(), TxnState::Aborted);
    assert_eq!(plan.written(), 1);
    assert_eq!(plan.action(), CommitAction::Finished(Err(VectorError::PutFailed(1))));
    plan.record(true);
    assert_eq!(plan.state(), TxnState::Aborted);
    assert_eq!(plan.written(), 1);
    assert_eq!(plan.action(), CommitAction::Finished(Err(VectorError::PutFailed(1))));
}

#[test]
fn failed_first_put_aborts_with_nothing_written() {
    let mut txn: VecTxn<(), ()> = VecTxn::new(());
    txn.set_neighbors(v(1), 0, &vec![v(2)]);
    let (_, mut plan) = txn.commit();
    plan.record(false);
    assert_eq!(plan.state(), TxnState::Aborted);
    assert_eq!(plan.written(), 0);
    assert_eq!(plan.action(), CommitAction::Finished(Err(VectorError::PutFailed(0))));
}

#[test]
fn failed_store_commit_aborts() {
    let mut txn: VecTxn<(), ()> = VecTxn::new(());
    txn.set_neighbors(v(1), 0, &vec![v(2)]);
    let (_, mut plan) = txn.commit();
    plan.record(true);
    plan.record(true);
    assert_eq!(plan.action(), CommitAction::CommitStore);
    plan.record(false);
    assert_eq!(plan.state(), TxnState::Aborted);
    assert_eq!(plan.action(), CommitAction::Finished(Err(VectorError::CommitFailed)));
}

#[test]
fn empty_overlay_commits_with_no_put() {
    let txn: VecTxn<(), ()> = VecTxn::new(());
    let (_, mut plan) = txn.commit();
    assert_eq!(plan.len(), 0);
    assert_eq!(plan.action(), CommitAction::CommitStore);
    plan.record(true);
    assert_eq!(plan.state(), TxnState::Committed);
    assert_eq!(plan.action(), CommitAction::Finished(Ok(())));
}

#[test]
fn empty_overlay_whose_store_commit_fails_is_aborted() {
    let txn: VecTxn<(), ()> = VecTxn::new(());
    let (_, mut plan) = txn.commit();
    plan.record(false);
    assert_eq!(plan.state(), TxnState::Aborted);
    assert_eq!(plan.action(), CommitAction::Finished(Err(VectorError::CommitFailed)));
}
