//! The write transaction of the vector index: a store transaction handle
//! together with the overlay of pending neighbor sets, and the plan by which
//! a commit brings the overlay into the store.
//!
//! Nothing here touches the store. Until `commit` the transaction only
//! edits its overlay; `commit` turns the overlay into a plan, and the owner
//! of the store carries the plan out one action at a time, telling the plan
//! how each action ended.

use vstd::prelude::*;
use crate::edge_key::key_views;
use crate::overlay::{
    edge_keys, insert_neighbors_spec, overlay_wf, set_neighbors_spec, symmetric,
};
use crate::records::{lists, Record, RecordSet};
use crate::store::NeighborStore;

verus! {

/// Number of entries that a new transaction has room for.
pub const INITIAL_CAPACITY: usize = 256;

/// Where a write transaction stands.
#[derive(Clone, Copy, Debug, PartialEq, Eq, Structural)]
pub enum TxnState {
    /// Accepting changes; nothing has reached the store.
    Open,
    /// `commit` was called; the keys are being written.
    Committing,
    /// The store has committed; the keys are durable.
    Committed,
    /// Dropped, or failed while committing; the store keeps nothing.
    Aborted,
}

/// What can happen to a write transaction.
#[derive(Clone, Copy, Debug, PartialEq, Eq, Structural)]
pub enum TxnEvent {
    /// `commit` was entered.
    CommitEntered,
    /// One key was written.
    PutSucceeded,
    /// Writing a key failed.
    PutFailed,
    /// The store committed.
    StoreCommitted,
    /// The store refused to commit.
    StoreCommitFailed,
    /// The transaction was dropped.
    Dropped,
}

/// Why a commit did not go through: the store operation that failed.
#[derive(Clone, Copy, Debug, PartialEq, Eq, Structural)]
pub enum VectorError {
    /// Writing the key at this position of the plan failed.
    PutFailed(usize),
    /// The keys were written, but the store refused to commit.
    CommitFailed,
}

/// What the owner of the store has to do next for a commit.
#[derive(Debug, PartialEq, Eq)]
pub enum CommitAction<'a> {
    /// Write this key with the empty value.
    Put(&'a Vec<u8>),
    /// Every key is written: commit the store transaction.
    CommitStore,
    /// Nothing is left to do; this is the result of the commit.
    Finished(Result<(), VectorError>),
}

/// The state that follows `state` on `event`. A transaction starts
/// committing when `commit` is entered, is committed when the store commits,
/// and is aborted by any failure while committing and by a drop before the
/// store has committed. Committed and aborted transactions stay as they are.
pub open spec fn next_state(state: TxnState, event: TxnEvent) -> TxnState {
    match (state, event) {
        (TxnState::Open, TxnEvent::CommitEntered) => TxnState::Committing,
        (TxnState::Open, TxnEvent::Dropped) => TxnState::Aborted,
        (TxnState::Committing, TxnEvent::PutSucceeded) => TxnState::Committing,
        (TxnState::Committing, TxnEvent::StoreCommitted) => TxnState::Committed,
        (TxnState::Committing, TxnEvent::PutFailed) => TxnState::Aborted,
        (TxnState::Committing, TxnEvent::StoreCommitFailed) => TxnState::Aborted,
        (TxnState::Committing, TxnEvent::Dropped) => TxnState::Aborted,
        _ => state,
    }
}

impl TxnState {
    /// Whether no event changes this state any more.
    pub open spec fn is_terminal(self) -> bool {
        self == TxnState::Committed || self == TxnState::Aborted
    }

    /// The state that follows this one on `event`.
    pub fn on(self, event: TxnEvent) -> (next: TxnState)
        ensures
            next == next_state(self, event),
    {
        match self {
            TxnState::Open => match event {
                TxnEvent::CommitEntered => TxnState::Committing,
                TxnEvent::Dropped => TxnState::Aborted,
                _ => TxnState::Open,
            },
            TxnState::Committing => match event {
                TxnEvent::PutSucceeded => TxnState::Committing,
                TxnEvent::StoreCommitted => TxnState::Committed,
                TxnEvent::PutFailed => TxnState::Aborted,
                TxnEvent::StoreCommitFailed => TxnState::Aborted,
                TxnEvent::Dropped => TxnState::Aborted,
                TxnEvent::CommitEntered => TxnState::Committing,
            },
            TxnState::Committed => TxnState::Committed,
            TxnState::Aborted => TxnState::Aborted,
        }
    }
}

/// The state after a sequence of events, taken from left to right.
pub open spec fn state_after(state: TxnState, events: Seq<TxnEvent>) -> TxnState
    decreases events.len(),
{
    if events.len() == 0 {
        state
    } else {
        next_state(state_after(state, events.drop_last()), events.last())
    }
}

/// Committed and aborted are final: no sequence of events leads out of them.
pub proof fn law_terminal_states_stay(state: TxnState, events: Seq<TxnEvent>)
    requires
        state.is_terminal(),
    ensures
        state_after(state, events) == state,
    decreases events.len(),
{
    if events.len() > 0 {
        law_terminal_states_stay(state, events.drop_last());
    }
}

/// A transaction is committed only through the store: whatever happens to an
/// open transaction, it ends up committed only if `commit` was entered and
/// the store committed, and never if a put or the store commit failed or the
/// transaction was dropped before.
pub proof fn law_committed_needs_store_commit(events: Seq<TxnEvent>)
    requires
        state_after(TxnState::Open, events) == TxnState::Committed,
    ensures
        events.contains(TxnEvent::CommitEntered),
        events.contains(TxnEvent::StoreCommitted),
    decreases events.len(),
{
    let prev = state_after(TxnState::Open, events.drop_last());
    let last = events.last();
    assert(events.len() > 0);
    assert(events[events.len() - 1] == last);
    if prev == TxnState::Committed {
        law_committed_needs_store_commit(events.drop_last());
        let i = choose|i: int|
            0 <= i < events.drop_last().len() && events.drop_last()[i] == TxnEvent::CommitEntered;
        assert(events[i] == TxnEvent::CommitEntered);
        let j = choose|j: int|
            0 <= j < events.drop_last().len() && events.drop_last()[j] == TxnEvent::StoreCommitted;
        assert(events[j] == TxnEvent::StoreCommitted);
    } else {
        assert(prev == TxnState::Committing && last == TxnEvent::StoreCommitted);
        lemma_committing_was_entered(events.drop_last());
        let i = choose|i: int|
            0 <= i < events.drop_last().len() && events.drop_last()[i] == TxnEvent::CommitEntered;
        assert(events[i] == TxnEvent::CommitEntered);
    }
}

proof fn lemma_committing_was_entered(events: Seq<TxnEvent>)
    requires
        state_after(TxnState::Open, events) == TxnState::Committing,
    ensures
        events.contains(TxnEvent::CommitEntered),
    decreases events.len(),
{
    let prev = state_after(TxnState::Open, events.drop_last());
    assert(events.len() > 0);
    assert(events[events.len() - 1] == events.last());
    if prev == TxnState::Committing {
        lemma_committing_was_entered(events.drop_last());
        let i = choose|i: int|
            0 <= i < events.drop_last().len() && events.drop_last()[i] == TxnEvent::CommitEntered;
        assert(events[i] == TxnEvent::CommitEntered);
    }
}

/// A transaction that is dropped while open is aborted, whatever comes
/// after.
pub proof fn law_drop_aborts(events: Seq<TxnEvent>)
    ensures
        state_after(TxnState::Open, seq![TxnEvent::Dropped] + events) == TxnState::Aborted,
    decreases events.len(),
{
    let all = seq![TxnEvent::Dropped] + events;
    if events.len() == 0 {
        assert(all.drop_last() =~= Seq::<TxnEvent>::empty());
        assert(all.last() == TxnEvent::Dropped);
        assert(state_after(TxnState::Open, all.drop_last()) == TxnState::Open);
    } else {
        law_drop_aborts(events.drop_last());
        assert(all.drop_last() =~= seq![TxnEvent::Dropped] + events.drop_last());
    }
}

/// What a commit plan holds: the keys to write, how many of them are
/// written, and where the transaction stands.
pub struct PlanView {
    pub keys: Seq<Seq<u8>>,
    pub written: nat,
    pub state: TxnState,
}

/// What holds of every plan: no key occurs twice, no more keys are written
/// than there are, the transaction is past `Open`, and it is committed only
/// with every key written.
pub open spec fn plan_wf(p: PlanView) -> bool {
    &&& p.keys.no_duplicates()
    &&& p.written <= p.keys.len()
    &&& p.state != TxnState::Open
    &&& p.state == TxnState::Committed ==> p.written == p.keys.len()
}

/// The event that the outcome `ok` of the pending action of `p` amounts to.
pub open spec fn plan_event(p: PlanView, ok: bool) -> TxnEvent {
    if p.written < p.keys.len() {
        if ok {
            TxnEvent::PutSucceeded
        } else {
            TxnEvent::PutFailed
        }
    } else {
        if ok {
            TxnEvent::StoreCommitted
        } else {
            TxnEvent::StoreCommitFailed
        }
    }
}

/// The plan after its pending action ended with the outcome `ok`. A written
/// key is counted; the rest follows the state machine of the transaction.
/// A plan that is committed or aborted has no pending action and stays as
/// it is.
pub open spec fn plan_step(p: PlanView, ok: bool) -> PlanView {
    if p.state != TxnState::Committing {
        p
    } else {
        PlanView {
            keys: p.keys,
            written: if ok && p.written < p.keys.len() {
                p.written + 1
            } else {
                p.written
            },
            state: next_state(p.state, plan_event(p, ok)),
        }
    }
}

/// The result of a plan that is committed or aborted: success, or the store
/// operation that failed.
pub open spec fn plan_result(p: PlanView) -> Result<(), VectorError> {
    if p.state == TxnState::Committed {
        Ok(())
    } else if p.written < p.keys.len() {
        Err(VectorError::PutFailed(p.written as usize))
    } else {
        Err(VectorError::CommitFailed)
    }
}

/// The plan after a run of outcomes, taken from left to right.
pub open spec fn plan_after(p: PlanView, outcomes: Seq<bool>) -> PlanView
    decreases outcomes.len(),
{
    if outcomes.len() == 0 {
        p
    } else {
        plan_step(plan_after(p, outcomes.drop_last()), outcomes.last())
    }
}

/// The keys of a commit with the order in which they are to be written, and
/// how far the commit has come.
pub struct CommitPlan {
    keys: Vec<Vec<u8>>,
    written: usize,
    state: TxnState,
}

impl View for CommitPlan {
    type V = PlanView;

    closed spec fn view(&self) -> PlanView {
        PlanView { keys: key_views(self.keys@), written: self.written as nat, state: self.state }
    }
}

impl CommitPlan {
    #[verifier::type_invariant]
    spec fn well_formed(&self) -> bool {
        plan_wf(self@)
    }

    /// A plan that is about to write `keys`, in their order.
    pub(crate) fn new(keys: Vec<Vec<u8>>) -> (plan: CommitPlan)
        requires
            key_views(keys@).no_duplicates(),
        ensures
            plan@.keys == key_views(keys@),
            plan@.written == 0,
            plan@.state == TxnState::Committing,
            plan_wf(plan@),
    {
        CommitPlan { keys, written: 0, state: TxnState::Open.on(TxnEvent::CommitEntered) }
    }

    /// Where the transaction stands.
    pub fn state(&self) -> (state: TxnState)
        ensures
            state == self@.state,
            plan_wf(self@),
    {
        proof {
            use_type_invariant(self);
        }
        self.state
    }

    /// How many keys the plan holds.
    pub fn len(&self) -> (n: usize)
        ensures
            n == self@.keys.len(),
    {
        assert(key_views(self.keys@).len() == self.keys@.len());
        self.keys.len()
    }

    /// How many keys are written.
    pub fn written(&self) -> (n: usize)
        ensures
            n == self@.written,
    {
        self.written
    }

    /// What is to be done next: the next key to write while one is left, the
    /// store commit once all are written, and the result once the
    /// transaction is committed or aborted.
    pub fn action(&self) -> (action: CommitAction<'_>)
        ensures
            plan_wf(self@),
            match action {
                CommitAction::Put(key) => self@.state == TxnState::Committing && self@.written
                    < self@.keys.len() && key@ == self@.keys[self@.written as int],
                CommitAction::CommitStore => self@.state == TxnState::Committing && self@.written
                    == self@.keys.len(),
                CommitAction::Finished(result) => self@.state.is_terminal() && result
                    == plan_result(self@),
            },
    {
        proof {
            use_type_invariant(self);
        }
        match self.state {
            TxnState::Committing => {
                if self.written < self.keys.len() {
                    assert(key_views(self.keys@)[self.written as int] == self.keys@[self.written as int]@);
                    CommitAction::Put(&self.keys[self.written])
                } else {
                    CommitAction::CommitStore
                }
            },
            TxnState::Committed => CommitAction::Finished(Ok(())),
            _ => {
                if self.written < self.keys.len() {
                    CommitAction::Finished(Err(VectorError::PutFailed(self.written)))
                } else {
                    CommitAction::Finished(Err(VectorError::CommitFailed))
                }
            },
        }
    }

    /// Takes note of how the action last handed out ended.
    pub fn record(&mut self, ok: bool)
        ensures
            final(self)@ == plan_step(old(self)@, ok),
            plan_wf(final(self)@),
    {
        proof {
            use_type_invariant(&*self);
        }
        match self.state {
            TxnState::Committing => {
                if self.written < self.keys.len() {
                    if ok {
                        self.written = self.written + 1;
                    } else {
                        self.state = self.state.on(TxnEvent::PutFailed);
                    }
                } else {
                    if ok {
                        self.state = self.state.on(TxnEvent::StoreCommitted);
                    } else {
                        self.state = self.state.on(TxnEvent::StoreCommitFailed);
                    }
                }
            },
            _ => {},
        }
    }
}

/// A plan stays well-formed whatever the outcomes are.
pub proof fn law_plan_stays_wf(p: PlanView, ok: bool)
    requires
        plan_wf(p),
    ensures
        plan_wf(plan_step(p, ok)),
        plan_step(p, ok).keys == p.keys,
        plan_step(p, ok).written >= p.written,
{
}

/// While every action succeeds, a new plan hands out its keys one by one
/// in their order, then the store commit, and is committed after that.
pub proof fn law_plan_runs_in_order(p: PlanView, k: nat)
    requires
        plan_wf(p),
        p.state == TxnState::Committing,
        p.written == 0,
        k <= p.keys.len() + 1,
    ensures
        plan_after(p, Seq::new(k, |i: int| true)).keys == p.keys,
        k <= p.keys.len() ==> plan_after(p, Seq::new(k, |i: int| true)).written == k
            && plan_after(p, Seq::new(k, |i: int| true)).state == TxnState::Committing,
        k == p.keys.len() + 1 ==> plan_after(p, Seq::new(k, |i: int| true)).written
            == p.keys.len() && plan_after(p, Seq::new(k, |i: int| true)).state
            == TxnState::Committed,
    decreases k,
{
    if k > 0 {
        law_plan_runs_in_order(p, (k - 1) as nat);
        assert(Seq::new(k, |i: int| true).drop_last() =~= Seq::new((k - 1) as nat, |i: int| true));
    }
}

/// The first failure aborts the plan: the transaction is aborted, no
/// further key is counted whatever is recorded afterwards, and the result
/// names the put or the store commit that failed.
pub proof fn law_plan_failure_aborts(p: PlanView, later: Seq<bool>)
    requires
        plan_wf(p),
        p.state == TxnState::Committing,
    ensures
        plan_after(plan_step(p, false), later).state == TxnState::Aborted,
        plan_after(plan_step(p, false), later).written == p.written,
        plan_result(plan_after(plan_step(p, false), later)) == if p.written < p.keys.len() {
            Err::<(), VectorError>(VectorError::PutFailed(p.written as usize))
        } else {
            Err::<(), VectorError>(VectorError::CommitFailed)
        },
        plan_after(plan_step(p, false), later) == plan_step(p, false),
    decreases later.len(),
{
    if later.len() > 0 {
        law_plan_failure_aborts(p, later.drop_last());
    }
}

/// A write transaction of the vector index: the transaction handle of the
/// store, which this type carries but never uses, and the overlay of
/// neighbor sets that are pending in the transaction.
pub struct VecTxn<T, D> {
    pub txn: T,
    pub cache: NeighborStore<D>,
}

impl<T, D> VecTxn<T, D> {
    /// A transaction around the store handle `txn`, with an empty overlay.
    pub fn new(txn: T) -> (t: Self)
        ensures
            t.txn == txn,
            t.cache@ == Map::<(u128, usize), RecordSet<D>>::empty(),
            overlay_wf(t.cache@),
            symmetric(t.cache@),
    {
        VecTxn { txn, cache: NeighborStore::with_capacity(INITIAL_CAPACITY) }
    }

    /// Replaces the pending neighbor set of `curr_vec` at `level`; see
    /// `NeighborStore::set_neighbors`. The store handle is left alone.
    pub fn set_neighbors(&mut self, curr_vec: Record<D>, level: usize, neighbors: &Vec<Record<D>>)
        ensures
            final(self).cache@ == set_neighbors_spec(old(self).cache@, curr_vec, level, neighbors@),
            overlay_wf(final(self).cache@),
            symmetric(old(self).cache@) ==> symmetric(final(self).cache@),
            final(self).txn == old(self).txn,
    {
        self.cache.set_neighbors(curr_vec, level, neighbors);
    }

    /// The pending neighbors of `id` at `level`, each once; `None` where
    /// nothing is pending for the pair.
    pub fn get_neighbors(&self, id: u128, level: usize) -> (found: Option<Vec<Record<D>>>)
        ensures
            match found {
                Some(list) => self.cache@.contains_key((id, level)) && lists(
                    list@,
                    self.cache@[(id, level)],
                ),
                None => !self.cache@.contains_key((id, level)),
            },
            overlay_wf(self.cache@),
    {
        self.cache.get_neighbors(id, level)
    }

    /// Merges `neighbors` into the pending set of `id` at `level`; see
    /// `NeighborStore::insert_neighbors`. The store handle is left alone.
    pub fn insert_neighbors(&mut self, id: u128, level: usize, neighbors: &Vec<Record<D>>)
        ensures
            final(self).cache@ == insert_neighbors_spec(old(self).cache@, id, level, neighbors@),
            overlay_wf(final(self).cache@),
            final(self).txn == old(self).txn,
    {
        self.cache.insert_neighbors(id, level, neighbors);
    }

    /// The store handle, for reading.
    pub fn get_rtxn(&self) -> (txn: &T)
        ensures
            *txn == self.txn,
    {
        &self.txn
    }

    /// The store handle, for writing data other than edges. The overlay is
    /// not within reach of the borrower.
    pub fn get_wtxn(&mut self) -> (txn: &mut T)
        ensures
            *txn == old(self).txn,
            final(self).txn == *final(txn),
            final(self).cache == old(self).cache,
    {
        &mut self.txn
    }

    /// Ends the transaction: gives back the store handle and the plan of
    /// the keys to write through it, every key of the overlay once and no
    /// other. Until the plan is carried out the store has seen nothing of
    /// this transaction.
    pub fn commit(self) -> (out: (T, CommitPlan))
        ensures
            out.0 == self.txn,
            out.1@.keys.no_duplicates(),
            out.1@.keys.to_set() == edge_keys(self.cache@),
            out.1@.written == 0,
            out.1@.state == TxnState::Committing,
            plan_wf(out.1@),
            overlay_wf(self.cache@),
    {
        let keys = self.cache.materialize();
        (self.txn, CommitPlan::new(keys))
    }
}

} // verus!
