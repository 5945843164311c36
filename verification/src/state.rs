//! The migration state that the control service shares with the transport
//! worker: the next target and the migration epoch, always written together.

use vstd::prelude::*;

verus! {

/// What the shared state holds, as plain values.
pub struct MigrationView {
    /// The target that was requested last, as the caller wrote it.
    pub next_target: Seq<char>,
    /// How many requests have been published.
    pub migration_epoch: nat,
}

impl MigrationView {
    /// The state after one more request: the new target replaces the old
    /// one, and the epoch advances by one.
    pub open spec fn updated(self, address: Seq<char>) -> MigrationView {
        MigrationView { next_target: address, migration_epoch: self.migration_epoch + 1 }
    }

    /// Whether a migration has been requested.
    pub open spec fn pending(self) -> bool {
        self.migration_epoch != 0
    }
}

/// The state after a run of requests, applied in order.
pub open spec fn after_updates(start: MigrationView, addresses: Seq<Seq<char>>) -> MigrationView
    decreases addresses.len(),
{
    if addresses.len() == 0 {
        start
    } else {
        after_updates(start, addresses.drop_last()).updated(addresses.last())
    }
}

/// The record that the control service writes and the transport worker reads.
/// It is not a queue: a request that has not been consumed is superseded by
/// the next one. The target is kept as the caller wrote it, and is to be
/// validated again by whoever uses it.
#[derive(Clone, Debug, PartialEq, Eq)]
pub struct MigrationState {
    next_target: String,
    migration_epoch: u64,
}

impl View for MigrationState {
    type V = MigrationView;

    closed spec fn view(&self) -> MigrationView {
        MigrationView {
            next_target: self.next_target@,
            migration_epoch: self.migration_epoch as nat,
        }
    }
}

impl MigrationState {
    /// The state before any request: no target, epoch zero.
    pub fn new() -> (state: MigrationState)
        ensures
            state@.next_target == Seq::<char>::empty(),
            state@.migration_epoch == 0,
            !state@.pending(),
    {
        MigrationState { next_target: String::new(), migration_epoch: 0 }
    }

    /// Publishes a request: replaces the target and advances the epoch, both
    /// in one step.
    pub fn update(&mut self, address: String)
        requires
            old(self)@.migration_epoch < u64::MAX,
        ensures
            final(self)@ == old(self)@.updated(address@),
    {
        self.next_target = address;
        self.migration_epoch = self.migration_epoch + 1;
    }

    /// A copy of both fields as they stand together.
    pub fn snapshot(&self) -> (copy: MigrationState)
        ensures
            copy@ == self@,
    {
        MigrationState {
            next_target: self.next_target.clone(),
            migration_epoch: self.migration_epoch,
        }
    }

    /// The target that was requested last.
    pub fn next_target(&self) -> (target: &str)
        ensures
            target@ == self@.next_target,
    {
        self.next_target.as_str()
    }

    /// The number of requests published so far.
    pub fn migration_epoch(&self) -> (epoch: u64)
        ensures
            epoch as nat == self@.migration_epoch,
    {
        self.migration_epoch
    }

    /// Whether a migration has been requested.
    pub fn is_pending(&self) -> (pending: bool)
        ensures
            pending == self@.pending(),
    {
        self.migration_epoch != 0
    }
}

/// After any run of requests the state is exactly what the last of them
/// wrote: its target, never another's, paired with the epoch that counts the
/// whole run.
pub proof fn lemma_last_update_wins(start: MigrationView, addresses: Seq<Seq<char>>)
    requires
        addresses.len() > 0,
    ensures
        after_updates(start, addresses) == after_updates(start, addresses.drop_last()).updated(
            addresses.last(),
        ),
        after_updates(start, addresses).next_target == addresses.last(),
        after_updates(start, addresses).migration_epoch == start.migration_epoch
            + addresses.len(),
        after_updates(start, addresses).pending(),
{
    lemma_epoch_counts_updates(start, addresses);
}

/// The epoch after a run of requests is the epoch before it plus the number
/// of requests.
pub proof fn lemma_epoch_counts_updates(start: MigrationView, addresses: Seq<Seq<char>>)
    ensures
        after_updates(start, addresses).migration_epoch == start.migration_epoch
            + addresses.len(),
    decreases addresses.len(),
{
    if addresses.len() > 0 {
        lemma_epoch_counts_updates(start, addresses.drop_last());
    }
}

} // verus!
