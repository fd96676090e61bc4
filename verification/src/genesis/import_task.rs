//! The import worker of one table: it takes the groups of the table in order
//! and writes their entries, one group per step, until the groups are
//! exhausted, a group fails, or the import is cancelled.

use crate::combined_database::CombinedDatabase;
use crate::database::{Column, Database};
use crate::genesis::importer::Handler;
use crate::genesis::progress::{MultipleProgressReporter, ProgressCounter};
use crate::genesis::table::{lemma_ordinal_is_place, StorageDomain, TableKind, TABLE_COUNT};
use crate::genesis::task_manager::CancellationToken;
use vstd::prelude::*;

verus! {

/// One key with its value, as a table of the snapshot holds it.
#[derive(Debug, Clone, PartialEq, Eq)]
pub struct TableEntry {
    pub key: Vec<u8>,
    pub value: Vec<u8>,
}

/// Why an import failed.
#[derive(Debug, Clone, Copy, PartialEq, Eq, Structural)]
pub enum ImportError {
    /// The snapshot holds no data for the table.
    MissingTable { table: TableKind },
    /// A group of the table could not be decoded.
    Decode { table: TableKind, group: usize },
    /// An entry of a group has a key that the store holds already. A key is
    /// imported once; nothing is overwritten.
    KeyAlreadyExists { table: TableKind, group: usize, entry: usize },
    /// A worker was to be prepared after the workers had been run.
    AlreadyStarted,
}

/// Where a worker stands.
#[derive(Debug, Clone, Copy, PartialEq, Eq, Structural)]
pub enum WorkerStatus {
    /// Groups are left and nothing has stopped the worker.
    Running,
    /// Every group was imported.
    Finished,
    /// The worker saw the cancellation signal and left the remaining groups.
    Stopped,
    /// A group failed. Nothing was imported after the failure.
    Failed(ImportError),
}

/// What a column holds after the entries from `from` on were written to it in
/// order, and the place of the first entry whose key was there already. The
/// writing ends at such an entry; the entries before it stay written.
pub open spec fn write_from(content: Map<Seq<u8>, Seq<u8>>, entries: Seq<TableEntry>, from: int) -> (
    Map<Seq<u8>, Seq<u8>>,
    Option<int>,
)
    decreases entries.len() - from,
{
    if from < 0 || from >= entries.len() {
        (content, None)
    } else if content.dom().contains(entries[from].key@) {
        (content, Some(from))
    } else {
        write_from(content.insert(entries[from].key@, entries[from].value@), entries, from + 1)
    }
}

/// A worker together with what it has written and counted.
pub struct WorkerState {
    /// The number of groups imported so far, which is the place of the next one.
    pub next: int,
    pub status: WorkerStatus,
    /// What the column of the table holds.
    pub content: Map<Seq<u8>, Seq<u8>>,
    /// The progress counter of the table.
    pub counter: Option<ProgressCounter>,
}

/// The counter after one more group.
pub open spec fn ticked(counter: Option<ProgressCounter>) -> Option<ProgressCounter> {
    match counter {
        Some(counter) => Some(counter.ticked()),
        None => None,
    }
}

/// One step of the worker of `table` over `groups`, where `cancelled` is what
/// the worker sees of the cancellation signal at its checkpoint.
///
/// A worker that is not running stays as it is. A running worker with no group
/// left has finished. Otherwise a set signal stops it before it touches the
/// next group. Otherwise it imports the next group: a group that cannot be
/// decoded fails it, and so does an entry whose key is there already; a group
/// written to its end is counted.
pub open spec fn step_model(
    table: TableKind,
    groups: Seq<Option<Vec<TableEntry>>>,
    state: WorkerState,
    cancelled: bool,
) -> WorkerState {
    if state.status != WorkerStatus::Running {
        state
    } else if state.next < 0 || state.next >= groups.len() {
        WorkerState {
            next: state.next,
            status: WorkerStatus::Finished,
            content: state.content,
            counter: state.counter,
        }
    } else if cancelled {
        WorkerState {
            next: state.next,
            status: WorkerStatus::Stopped,
            content: state.content,
            counter: state.counter,
        }
    } else {
        match groups[state.next] {
            None => WorkerState {
                next: state.next,
                status: WorkerStatus::Failed(ImportError::Decode { table, group: state.next as usize }),
                content: state.content,
                counter: state.counter,
            },
            Some(entries) => {
                let written = write_from(state.content, entries@, 0);
                match written.1 {
                    Some(entry) => WorkerState {
                        next: state.next,
                        status: WorkerStatus::Failed(
                            ImportError::KeyAlreadyExists {
                                table,
                                group: state.next as usize,
                                entry: entry as usize,
                            },
                        ),
                        content: written.0,
                        counter: state.counter,
                    },
                    None => WorkerState {
                        next: state.next + 1,
                        status: if state.next + 1 == groups.len() {
                            WorkerStatus::Finished
                        } else {
                            WorkerStatus::Running
                        },
                        content: written.0,
                        counter: ticked(state.counter),
                    },
                }
            },
        }
    }
}

/// Writes `entries` to `column` in order, up to the first whose key is there
/// already, and returns the place of that entry.
pub fn write_entries(store: &mut Database, column: Column, entries: &Vec<TableEntry>) -> (conflict: Option<
    usize,
>)
    ensures
        final(store).table(column) == write_from(old(store).table(column), entries@, 0).0,
        conflict is Some == write_from(old(store).table(column), entries@, 0).1 is Some,
        conflict is Some ==> conflict->0 == write_from(old(store).table(column), entries@, 0).1->0,
        forall|other: Column| other != column ==> #[trigger] final(store).table(other) == old(store).table(other),
{
    let mut i: usize = 0;
    while i < entries.len()
        invariant
            i <= entries@.len(),
            write_from(old(store).table(column), entries@, 0) == write_from(
                store.table(column),
                entries@,
                i as int,
            ),
            forall|other: Column| other != column ==> #[trigger] store.table(other) == old(store).table(other),
        decreases entries@.len() - i,
    {
        let entry = &entries[i];
        if store.contains_key(entry.key.as_slice(), column) {
            return Some(i);
        }
        store.write(entry.key.as_slice(), column, entry.value.as_slice());
        i += 1;
    }
    None
}

/// The worker that imports one table.
///
/// The worker carries the import context for whoever shapes the entries of
/// its table; it writes the entries as its groups hold them.
pub struct ImportWorker {
    table: TableKind,
    handler: Handler,
    groups: Vec<Option<Vec<TableEntry>>>,
    next: usize,
    status: WorkerStatus,
}

impl ImportWorker {
    #[verifier::type_invariant]
    spec fn consistent(self) -> bool {
        &&& self.next <= self.groups@.len()
        &&& self.status == WorkerStatus::Finished ==> self.next == self.groups@.len()
        &&& self.status == WorkerStatus::Stopped || self.status is Failed ==> self.next < self.groups@.len()
    }

    /// The table that the worker imports.
    pub closed spec fn table(self) -> TableKind {
        self.table
    }

    /// The import context of the worker.
    pub closed spec fn handler(self) -> Handler {
        self.handler
    }

    /// The groups of the table in order; a group that cannot be decoded is `None`.
    pub closed spec fn groups(self) -> Seq<Option<Vec<TableEntry>>> {
        self.groups@
    }

    /// The number of groups imported so far.
    pub closed spec fn next(self) -> int {
        self.next as int
    }

    /// Where the worker stands.
    pub closed spec fn status(self) -> WorkerStatus {
        self.status
    }

    /// The worker together with what the stores hold of its table and what the
    /// reporter has counted for it.
    pub open spec fn state(self, db: CombinedDatabase, progress: MultipleProgressReporter) -> WorkerState {
        WorkerState {
            next: self.next(),
            status: self.status(),
            content: db.content(self.table()),
            counter: progress.counter(self.table()),
        }
    }

    /// The number of imported groups is a number of the machine.
    pub proof fn lemma_next_bounded(self)
        ensures
            0 <= self.next() <= usize::MAX,
    {
    }

    /// A worker for `table` that has imported nothing yet.
    pub fn new(table: TableKind, handler: Handler, groups: Vec<Option<Vec<TableEntry>>>) -> (worker: ImportWorker)
        ensures
            worker.table() == table,
            worker.handler() == handler,
            worker.groups() == groups@,
            worker.next() == 0,
            worker.status() == WorkerStatus::Running,
    {
        ImportWorker { table, handler, groups, next: 0, status: WorkerStatus::Running }
    }

    /// The table that the worker imports.
    pub fn table_kind(&self) -> (table: TableKind)
        ensures
            table == self.table(),
    {
        self.table
    }

    /// The import context of the worker.
    pub fn context(&self) -> (handler: Handler)
        ensures
            handler == self.handler(),
    {
        self.handler
    }

    /// The number of groups of the table.
    pub fn total_groups(&self) -> (total: usize)
        ensures
            total == self.groups().len(),
    {
        self.groups.len()
    }

    /// The number of groups imported so far.
    pub fn processed_groups(&self) -> (processed: usize)
        ensures
            processed == self.next(),
            processed <= self.groups().len(),
            self.status() == WorkerStatus::Finished ==> processed == self.groups().len(),
            self.status() == WorkerStatus::Stopped || self.status() is Failed ==> processed
                < self.groups().len(),
    {
        proof {
            use_type_invariant(self);
        }
        self.next
    }

    /// Where the worker stands.
    pub fn current_status(&self) -> (status: WorkerStatus)
        ensures
            status == self.status(),
    {
        self.status
    }

    /// Takes one step: looks at the cancellation signal as the caller saw it
    /// and, unless that or the end of the groups stops the worker, imports the
    /// next group into the store of the table's domain and counts it.
    ///
    /// Nothing but the column of the table and the counter of the table
    /// changes.
    pub fn step(&mut self, cancelled: bool, db: &mut CombinedDatabase, progress: &mut MultipleProgressReporter) -> (status:
        WorkerStatus)
        ensures
            final(self).table() == old(self).table(),
            final(self).handler() == old(self).handler(),
            final(self).groups() == old(self).groups(),
            final(self).state(*final(db), *final(progress)) == step_model(
                old(self).table(),
                old(self).groups(),
                old(self).state(*old(db), *old(progress)),
                cancelled,
            ),
            status == final(self).status(),
            0 <= final(self).next() <= final(self).groups().len(),
            forall|column: Column|
                column != old(self).table().spec_column() ==> #[trigger] final(db).on_chain.table(column)
                    == old(db).on_chain.table(column),
            forall|column: Column|
                column != old(self).table().spec_column() ==> #[trigger] final(db).off_chain.table(column)
                    == old(db).off_chain.table(column),
            old(self).table().spec_domain() == StorageDomain::OnChain ==> final(db).off_chain == old(
                db,
            ).off_chain,
            old(self).table().spec_domain() == StorageDomain::OffChain ==> final(db).on_chain == old(
                db,
            ).on_chain,
            final(progress).counters() == old(progress).counters().update(
                old(self).table().ordinal(),
                final(progress).counter(old(self).table()),
            ),
            final(progress).counters().len() == TABLE_COUNT,
    {
        proof {
            use_type_invariant(&*self);
            progress.lemma_one_counter_per_table();
            lemma_ordinal_is_place(self.table);
            assert(progress.counters().update(self.table.ordinal(), progress.counter(self.table))
                =~= progress.counters());
        }
        match self.status {
            WorkerStatus::Running => {},
            _ => {
                return self.status;
            },
        }
        if self.next >= self.groups.len() {
            self.status = WorkerStatus::Finished;
            return self.status;
        }
        if cancelled {
            self.status = WorkerStatus::Stopped;
            return self.status;
        }
        let conflict = match &self.groups[self.next] {
            None => {
                self.status = WorkerStatus::Failed(ImportError::Decode { table: self.table, group: self.next });
                return self.status;
            },
            Some(entries) => {
                let column = self.table.column();
                match self.table.domain() {
                    StorageDomain::OnChain => write_entries(&mut db.on_chain, column, entries),
                    StorageDomain::OffChain => write_entries(&mut db.off_chain, column, entries),
                }
            },
        };
        match conflict {
            Some(entry) => {
                self.status = WorkerStatus::Failed(
                    ImportError::KeyAlreadyExists { table: self.table, group: self.next, entry },
                );
            },
            None => {
                progress.tick(self.table);
                self.next = self.next + 1;
                if self.next == self.groups.len() {
                    self.status = WorkerStatus::Finished;
                }
            },
        }
        self.status
    }
}

/// The worker after it has taken one step for each of `observations`, the
/// values that it saw of the cancellation signal, in order.
pub open spec fn run_model(
    table: TableKind,
    groups: Seq<Option<Vec<TableEntry>>>,
    state: WorkerState,
    observations: Seq<bool>,
) -> WorkerState
    decreases observations.len(),
{
    if observations.len() == 0 {
        state
    } else {
        step_model(table, groups, run_model(table, groups, state, observations.drop_last()), observations.last())
    }
}

/// A worker that has imported nothing yet, before a column that holds
/// `content` and with the counter `counter`.
pub open spec fn fresh(content: Map<Seq<u8>, Seq<u8>>, counter: Option<ProgressCounter>) -> WorkerState {
    WorkerState { next: 0, status: WorkerStatus::Running, content, counter }
}

/// What a column that held `content` holds after the first `count` groups
/// were written to it in order.
pub open spec fn written(content: Map<Seq<u8>, Seq<u8>>, groups: Seq<Option<Vec<TableEntry>>>, count: int) -> Map<
    Seq<u8>,
    Seq<u8>,
>
    decreases count,
{
    if count <= 0 {
        content
    } else {
        match groups[count - 1] {
            Some(entries) => write_from(written(content, groups, count - 1), entries@, 0).0,
            None => written(content, groups, count - 1),
        }
    }
}

/// The failure of the group at `group`, if it fails when it is imported after
/// all groups before it: it cannot be decoded, or one of its entries has a
/// key that is there already.
pub open spec fn group_failure(
    table: TableKind,
    content: Map<Seq<u8>, Seq<u8>>,
    groups: Seq<Option<Vec<TableEntry>>>,
    group: int,
) -> Option<ImportError> {
    match groups[group] {
        None => Some(ImportError::Decode { table, group: group as usize }),
        Some(entries) => match write_from(written(content, groups, group), entries@, 0).1 {
            Some(entry) => Some(
                ImportError::KeyAlreadyExists { table, group: group as usize, entry: entry as usize },
            ),
            None => None,
        },
    }
}

/// The counter after `count` more groups.
pub open spec fn ticked_times(counter: Option<ProgressCounter>, count: int) -> Option<ProgressCounter>
    decreases count,
{
    if count <= 0 {
        counter
    } else {
        ticked(ticked_times(counter, count - 1))
    }
}

/// Whether a worker that began before `content` with `counter` can be in `state`:
/// it has imported the groups before `state.next`, none of which failed, in
/// order and nothing else, and has counted each of them; it has finished only
/// with every group imported; it has failed only with the failure of the next
/// group, of which the entries before the failing one are written.
pub open spec fn reached(
    table: TableKind,
    groups: Seq<Option<Vec<TableEntry>>>,
    content: Map<Seq<u8>, Seq<u8>>,
    counter: Option<ProgressCounter>,
    state: WorkerState,
) -> bool {
    &&& 0 <= state.next <= groups.len()
    &&& forall|group: int| 0 <= group < state.next ==> #[trigger] group_failure(table, content, groups, group) is None
    &&& state.counter == ticked_times(counter, state.next)
    &&& match state.status {
        WorkerStatus::Running => state.content == written(content, groups, state.next),
        WorkerStatus::Finished => state.next == groups.len() && state.content == written(
            content,
            groups,
            state.next,
        ),
        WorkerStatus::Stopped => state.next < groups.len() && state.content == written(
            content,
            groups,
            state.next,
        ),
        WorkerStatus::Failed(error) => state.next < groups.len() && group_failure(
            table,
            content,
            groups,
            state.next,
        ) == Some(error) && state.content == (match groups[state.next] {
            Some(entries) => write_from(written(content, groups, state.next), entries@, 0).0,
            None => written(content, groups, state.next),
        }),
    }
}

/// A step takes a worker from one state that it can be in to another.
pub proof fn lemma_step_keeps_reached(
    table: TableKind,
    groups: Seq<Option<Vec<TableEntry>>>,
    content: Map<Seq<u8>, Seq<u8>>,
    counter: Option<ProgressCounter>,
    state: WorkerState,
    cancelled: bool,
)
    requires
        reached(table, groups, content, counter, state),
    ensures
        reached(table, groups, content, counter, step_model(table, groups, state, cancelled)),
{
    let after = step_model(table, groups, state, cancelled);
    if after.next == state.next + 1 {
        assert(group_failure(table, content, groups, state.next) is None);
        assert(after.counter == ticked_times(counter, after.next));
    }
}

/// Whatever a worker saw of the cancellation signal, it has imported a
/// prefix of its groups in order and nothing else, and its counter has one
/// tick for each imported group.
pub proof fn lemma_run_reached(
    table: TableKind,
    groups: Seq<Option<Vec<TableEntry>>>,
    content: Map<Seq<u8>, Seq<u8>>,
    counter: Option<ProgressCounter>,
    observations: Seq<bool>,
)
    ensures
        reached(table, groups, content, counter, run_model(table, groups, fresh(content, counter), observations)),
    decreases observations.len(),
{
    if observations.len() > 0 {
        lemma_run_reached(table, groups, content, counter, observations.drop_last());
        lemma_step_keeps_reached(
            table,
            groups,
            content,
            counter,
            run_model(table, groups, fresh(content, counter), observations.drop_last()),
            observations.last(),
        );
    }
}

/// A counter that was registered with `total` groups reads `count` of `total`
/// after `count` ticks, as long as `count` is not beyond `total`.
pub proof fn lemma_ticks_count(total: usize, count: int)
    requires
        0 <= count <= total,
    ensures
        ticked_times(Some(ProgressCounter { processed: 0, total }), count) == Some(
            ProgressCounter { processed: count as usize, total },
        ),
    decreases count,
{
    if count > 0 {
        lemma_ticks_count(total, count - 1);
    }
}

/// A worker that has finished has written every group of its table, in the
/// order of the snapshot and nothing else, and its counter, registered with
/// the number of groups, reads all of them.
pub proof fn lemma_finished_wrote_all(
    table: TableKind,
    groups: Seq<Option<Vec<TableEntry>>>,
    content: Map<Seq<u8>, Seq<u8>>,
    observations: Seq<bool>,
)
    requires
        groups.len() <= usize::MAX,
        run_model(
            table,
            groups,
            fresh(content, Some(ProgressCounter { processed: 0, total: groups.len() as usize })),
            observations,
        ).status == WorkerStatus::Finished,
    ensures
        ({
            let end = run_model(
                table,
                groups,
                fresh(content, Some(ProgressCounter { processed: 0, total: groups.len() as usize })),
                observations,
            );
            &&& end.next == groups.len()
            &&& end.content == written(content, groups, groups.len() as int)
            &&& end.counter == Some(
                ProgressCounter { processed: groups.len() as usize, total: groups.len() as usize },
            )
            &&& forall|group: int|
                0 <= group < groups.len() ==> #[trigger] group_failure(table, content, groups, group) is None
        }),
{
    let counter = Some(ProgressCounter { processed: 0, total: groups.len() as usize });
    lemma_run_reached(table, groups, content, counter, observations);
    lemma_ticks_count(groups.len() as usize, groups.len() as int);
}

/// A worker that never sees the cancellation signal and whose groups do not
/// fail imports one group per step.
proof fn lemma_uncancelled_advances(
    table: TableKind,
    groups: Seq<Option<Vec<TableEntry>>>,
    content: Map<Seq<u8>, Seq<u8>>,
    counter: Option<ProgressCounter>,
    observations: Seq<bool>,
)
    requires
        forall|i: int| 0 <= i < observations.len() ==> !#[trigger] observations[i],
        forall|group: int|
            0 <= group < groups.len() ==> #[trigger] group_failure(table, content, groups, group) is None,
    ensures
        ({
            let end = run_model(table, groups, fresh(content, counter), observations);
            &&& observations.len() < groups.len() ==> end.next == observations.len() && end.status
                == WorkerStatus::Running
            &&& observations.len() >= groups.len() && observations.len() > 0 ==> end.status
                == WorkerStatus::Finished
        }),
    decreases observations.len(),
{
    if observations.len() > 0 {
        let before = observations.drop_last();
        lemma_uncancelled_advances(table, groups, content, counter, before);
        lemma_run_reached(table, groups, content, counter, before);
        let middle = run_model(table, groups, fresh(content, counter), before);
        if middle.status == WorkerStatus::Running && middle.next < groups.len() {
            assert(group_failure(table, content, groups, middle.next) is None);
        }
    }
}

/// A worker that never sees the cancellation signal and whose groups do not
/// fail finishes, once it has taken a step for each group and at least one:
/// it has then written every group in order and counted every group.
pub proof fn lemma_uncancelled_run_completes(
    table: TableKind,
    groups: Seq<Option<Vec<TableEntry>>>,
    content: Map<Seq<u8>, Seq<u8>>,
    observations: Seq<bool>,
)
    requires
        groups.len() <= usize::MAX,
        observations.len() >= groups.len(),
        observations.len() > 0,
        forall|i: int| 0 <= i < observations.len() ==> !#[trigger] observations[i],
        forall|group: int|
            0 <= group < groups.len() ==> #[trigger] group_failure(table, content, groups, group) is None,
    ensures
        ({
            let end = run_model(
                table,
                groups,
                fresh(content, Some(ProgressCounter { processed: 0, total: groups.len() as usize })),
                observations,
            );
            &&& end.status == WorkerStatus::Finished
            &&& end.next == groups.len()
            &&& end.content == written(content, groups, groups.len() as int)
            &&& end.counter == Some(
                ProgressCounter { processed: groups.len() as usize, total: groups.len() as usize },
            )
        }),
{
    let counter = Some(ProgressCounter { processed: 0, total: groups.len() as usize });
    lemma_uncancelled_advances(table, groups, content, counter, observations);
    lemma_finished_wrote_all(table, groups, content, observations);
}

/// A worker that is not running stays as it is, whatever it sees.
proof fn lemma_ended_stays(
    table: TableKind,
    groups: Seq<Option<Vec<TableEntry>>>,
    state: WorkerState,
    observations: Seq<bool>,
)
    requires
        state.status != WorkerStatus::Running,
    ensures
        run_model(table, groups, state, observations) == state,
    decreases observations.len(),
{
    if observations.len() > 0 {
        lemma_ended_stays(table, groups, state, observations.drop_last());
    }
}

/// The first step of a run is the step from the state in which the run began.
proof fn lemma_run_unfolds_first(
    table: TableKind,
    groups: Seq<Option<Vec<TableEntry>>>,
    state: WorkerState,
    observations: Seq<bool>,
)
    requires
        observations.len() > 0,
    ensures
        run_model(table, groups, state, observations) == run_model(
            table,
            groups,
            step_model(table, groups, state, observations[0]),
            observations.skip(1),
        ),
    decreases observations.len(),
{
    let first = step_model(table, groups, state, observations[0]);
    if observations.len() == 1 {
        assert(observations.drop_last() =~= Seq::<bool>::empty());
        assert(observations.skip(1) =~= Seq::<bool>::empty());
        assert(run_model(table, groups, state, observations.drop_last()) == state);
        assert(run_model(table, groups, first, observations.skip(1)) == first);
    } else {
        lemma_run_unfolds_first(table, groups, state, observations.drop_last());
        assert(observations.drop_last().skip(1) =~= observations.skip(1).drop_last());
        assert(observations.drop_last()[0] == observations[0]);
        assert(observations.skip(1).last() == observations.last());
        assert(run_model(table, groups, first, observations.skip(1)) == step_model(
            table,
            groups,
            run_model(table, groups, first, observations.skip(1).drop_last()),
            observations.skip(1).last(),
        ));
    }
}

/// A worker that sees the cancellation signal set before its first group
/// writes nothing and counts nothing, whatever it sees afterwards: it stops
/// with every group left, or has finished if its table has no groups.
pub proof fn lemma_cancelled_before_start_writes_nothing(
    table: TableKind,
    groups: Seq<Option<Vec<TableEntry>>>,
    content: Map<Seq<u8>, Seq<u8>>,
    counter: Option<ProgressCounter>,
    observations: Seq<bool>,
)
    requires
        observations.len() > 0,
        observations[0],
    ensures
        ({
            let end = run_model(table, groups, fresh(content, counter), observations);
            &&& end.content == content
            &&& end.counter == counter
            &&& end.next == 0
            &&& end.status == (if groups.len() == 0 {
                WorkerStatus::Finished
            } else {
                WorkerStatus::Stopped
            })
        }),
{
    lemma_run_unfolds_first(table, groups, fresh(content, counter), observations);
    lemma_ended_stays(
        table,
        groups,
        step_model(table, groups, fresh(content, counter), true),
        observations.skip(1),
    );
}

/// A step imports at most one group, and a step that sees the cancellation
/// signal set imports none: a worker stops within one group of the signal.
pub proof fn lemma_step_is_one_group(
    table: TableKind,
    groups: Seq<Option<Vec<TableEntry>>>,
    state: WorkerState,
    cancelled: bool,
)
    ensures
        ({
            let after = step_model(table, groups, state, cancelled);
            &&& state.next <= after.next <= state.next + 1
            &&& cancelled ==> after.next == state.next && after.content == state.content && after.counter
                == state.counter && after.status != WorkerStatus::Running
        }),
{
}

/// Imports the groups of `table` in order until they are exhausted, one of
/// them fails, or the cancellation signal is seen set between two groups.
///
/// The signal is looked at before every group. What the worker did is what
/// `run_model` says for the values that it saw, whatever they were. A stop on
/// the signal is no failure.
pub fn import_entries(
    cancel_token: &CancellationToken,
    handler: Handler,
    table: TableKind,
    groups: Vec<Option<Vec<TableEntry>>>,
    db: &mut CombinedDatabase,
    reporter: &mut MultipleProgressReporter,
) -> (result: Result<(), ImportError>)
    ensures
        exists|observations: Seq<bool>|
            {
                let end = #[trigger] run_model(
                    table,
                    groups@,
                    fresh(old(db).content(table), old(reporter).counter(table)),
                    observations,
                );
                &&& end.status != WorkerStatus::Running
                &&& end.content == final(db).content(table)
                &&& end.counter == final(reporter).counter(table)
                &&& result == (match end.status {
                    WorkerStatus::Failed(error) => Err::<(), ImportError>(error),
                    _ => Ok::<(), ImportError>(()),
                })
            },
        forall|column: Column|
            column != table.spec_column() ==> #[trigger] final(db).on_chain.table(column) == old(
                db,
            ).on_chain.table(column),
        forall|column: Column|
            column != table.spec_column() ==> #[trigger] final(db).off_chain.table(column) == old(
                db,
            ).off_chain.table(column),
        table.spec_domain() == StorageDomain::OnChain ==> final(db).off_chain == old(db).off_chain,
        table.spec_domain() == StorageDomain::OffChain ==> final(db).on_chain == old(db).on_chain,
        forall|other: TableKind| other != table ==> #[trigger] final(reporter).counter(other) == old(
            reporter,
        ).counter(other),
{
    let ghost begin = fresh(db.content(table), reporter.counter(table));
    let ghost all = groups@;
    let mut worker = ImportWorker::new(table, handler, groups);
    let ghost mut observations: Seq<bool> = Seq::empty();
    proof {
        reporter.lemma_one_counter_per_table();
    }
    let mut status = WorkerStatus::Running;
    while status == WorkerStatus::Running
        invariant
            worker.table() == table,
            worker.groups() == all,
            status == worker.status(),
            worker.state(*db, *reporter) == run_model(table, all, begin, observations),
            reporter.counters().len() == TABLE_COUNT,
            0 <= worker.next() <= all.len(),
            forall|column: Column|
                column != table.spec_column() ==> #[trigger] db.on_chain.table(column) == old(
                    db,
                ).on_chain.table(column),
            forall|column: Column|
                column != table.spec_column() ==> #[trigger] db.off_chain.table(column) == old(
                    db,
                ).off_chain.table(column),
            table.spec_domain() == StorageDomain::OnChain ==> db.off_chain == old(db).off_chain,
            table.spec_domain() == StorageDomain::OffChain ==> db.on_chain == old(db).on_chain,
            forall|other: TableKind| other != table ==> #[trigger] reporter.counter(other) == old(
                reporter,
            ).counter(other),
        decreases all.len() - worker.next(), (if worker.status() == WorkerStatus::Running { 1int } else { 0int }),
    {
        let cancelled = cancel_token.is_cancelled();
        proof {
            assert(observations.push(cancelled).drop_last() =~= observations);
            observations = observations.push(cancelled);
        }
        let ghost counted = *reporter;
        status = worker.step(cancelled, db, reporter);
        proof {
            assert forall|other: TableKind| other != table implies #[trigger] reporter.counter(other)
                == counted.counter(other) by {
                lemma_ordinal_is_place(other);
                lemma_ordinal_is_place(table);
            }
        }
    }
    match status {
        WorkerStatus::Failed(error) => Err(error),
        _ => Ok(()),
    }
}

} // verus!
